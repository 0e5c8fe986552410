use vstd::prelude::*;

use crate::bencode::bytes_eq;
use crate::helpers::{sha1, sha1_digest};
use crate::piece_manager::{Claim, BLOCK_SIZE};
use crate::wire_protocol::{bit_at, spec_set_bit, Bitfield, Message, MessageView, WireItem};
use crate::store::ceil_div;

verus! {

broadcast use vstd::std_specs::vec::group_vec_axioms, vstd::seq::group_seq_axioms;

/// The number of blocks in a piece of `piece_length` bytes; the last one may
/// be short.
pub open spec fn block_count(piece_length: u64) -> int {
    ceil_div(piece_length as int, BLOCK_SIZE as int)
}

/// A piece being assembled by one connection.
pub struct PieceBuffer {
    pub piece_index: u32,
    /// What the torrent says this piece must hash to.
    pub hash: [u8; 20],
    pub bytes: Vec<u8>,
    /// What was hashed so far: every block in order, fed as it arrived.
    /// `None` once a block has arrived out of order and the running hash can
    /// no longer be trusted.
    pub hashed: Option<Vec<u8>>,
    pub next_hashed_block: u32,
    /// Which blocks have landed, so the piece knows when it is whole.
    pub have: Vec<bool>,
}

/// A [`PieceBuffer`] as plain values.
pub struct PieceBufferView {
    pub piece_index: u32,
    pub hash: Seq<u8>,
    pub bytes: Seq<u8>,
    pub hashed: Option<Seq<u8>>,
    pub next_hashed_block: u32,
    pub have: Seq<bool>,
}

impl View for PieceBuffer {
    type V = PieceBufferView;

    open spec fn view(&self) -> PieceBufferView {
        PieceBufferView {
            piece_index: self.piece_index,
            hash: self.hash@,
            bytes: self.bytes@,
            hashed: match self.hashed {
                Some(h) => Some(h@),
                None => None,
            },
            next_hashed_block: self.next_hashed_block,
            have: self.have@,
        }
    }
}

impl PieceBufferView {
    /// The buffer's shape: one flag per block of a piece of `bytes.len()`
    /// bytes, and a count of blocks that fits a `u32`.
    pub open spec fn wf(self) -> bool {
        &&& self.have.len() == block_count(self.bytes.len() as u64)
        &&& self.bytes.len() <= u64::MAX
        &&& self.have.len() <= u32::MAX
        &&& self.next_hashed_block <= self.have.len()
    }

    /// Whether every block has landed.
    pub open spec fn complete(self) -> bool {
        forall|i: int| 0 <= i < self.have.len() ==> self.have[i]
    }
}

/// Takes a block in: marks it held, feeds it to the running hash if it is
/// the next one in order (and gives the running hash up otherwise), and
/// copies what fits of it into place. A block already held, or past the
/// end, changes nothing and is refused.
pub open spec fn spec_accept(b: PieceBufferView, block_index: u32, data: Seq<u8>) -> (PieceBufferView, bool) {
    if block_index >= b.have.len() || b.have[block_index as int] {
        (b, false)
    } else {
        let in_order = b.next_hashed_block == block_index;
        let offset = block_index * BLOCK_SIZE;
        let end = if offset + data.len() < b.bytes.len() {
            offset + data.len()
        } else {
            b.bytes.len() as int
        };
        let bytes = if offset < b.bytes.len() {
            b.bytes.subrange(0, offset) + data.subrange(0, end - offset) + b.bytes.subrange(end, b.bytes.len() as int)
        } else {
            b.bytes
        };
        (
            PieceBufferView {
                piece_index: b.piece_index,
                hash: b.hash,
                bytes,
                hashed: if in_order {
                    match b.hashed {
                        Some(h) => Some(h + data),
                        None => None,
                    }
                } else {
                    None
                },
                next_hashed_block: if in_order {
                    (b.next_hashed_block + 1) as u32
                } else {
                    b.next_hashed_block
                },
                have: b.have.update(block_index as int, true),
            },
            true,
        )
    }
}

/// The piece's hash: from the running hash when it saw every block in
/// order, from the assembled bytes otherwise.
pub open spec fn spec_digest(b: PieceBufferView) -> Seq<u8> {
    match b.hashed {
        Some(h) => if b.next_hashed_block == b.have.len() {
            sha1_digest(h)
        } else {
            sha1_digest(b.bytes)
        },
        None => sha1_digest(b.bytes),
    }
}

impl PieceBuffer {
    /// An empty buffer for a claimed piece.
    pub fn new(piece_index: u32, hash: [u8; 20], piece_length: u64) -> (r: Self)
        requires
            piece_length <= usize::MAX,
            block_count(piece_length) <= u32::MAX,
        ensures
            r@.wf(),
            r@.piece_index == piece_index,
            r@.hash == hash@,
            r@.bytes == Seq::new(piece_length as nat, |i: int| 0u8),
            r@.hashed == Some(Seq::<u8>::empty()),
            r@.next_hashed_block == 0,
            r@.have == Seq::new(block_count(piece_length) as nat, |i: int| false),
    {
        let mut bytes: Vec<u8> = Vec::new();
        let mut k: u64 = 0;
        while k < piece_length
            invariant
                k <= piece_length,
                bytes@ == Seq::new(k as nat, |i: int| 0u8),
            decreases piece_length - k,
        {
            bytes.push(0);
            k = k + 1;
            assert(bytes@ =~= Seq::new(k as nat, |i: int| 0u8));
        }
        let blocks: u64 = if piece_length % BLOCK_SIZE == 0 {
            piece_length / BLOCK_SIZE
        } else {
            piece_length / BLOCK_SIZE + 1
        };
        let mut have: Vec<bool> = Vec::new();
        let mut j: u64 = 0;
        while j < blocks
            invariant
                j <= blocks,
                have@ == Seq::new(j as nat, |i: int| false),
            decreases blocks - j,
        {
            have.push(false);
            j = j + 1;
            assert(have@ =~= Seq::new(j as nat, |i: int| false));
        }
        let r = PieceBuffer { piece_index, hash, bytes, hashed: Some(Vec::new()), next_hashed_block: 0, have };
        assert(r@.hashed == Some(Seq::<u8>::empty()));
        r
    }

    /// Whether every block has landed.
    pub fn is_complete(&self) -> (r: bool)
        ensures
            r == self@.complete(),
    {
        let mut k: usize = 0;
        while k < self.have.len()
            invariant
                k <= self.have@.len(),
                forall|i: int| 0 <= i < k ==> self.have@[i],
            decreases self.have@.len() - k,
        {
            if !self.have[k] {
                assert(!self@.have[k as int]);
                return false;
            }
            k = k + 1;
        }
        true
    }

    /// Takes the block in, in every sense: hashes it while it is still its
    /// own value, then copies it into place. Returns false if the block was
    /// already held, which is the endgame loser's copy and must not be
    /// counted or hashed twice.
    pub fn accept(&mut self, block_index: u32, data: &[u8]) -> (accepted: bool)
        requires
            old(self)@.wf(),
        ensures
            final(self)@.wf(),
            (final(self)@, accepted) == spec_accept(old(self)@, block_index, data@),
    {
        if block_index as usize >= self.have.len() {
            return false;
        }
        if self.have[block_index as usize] {
            return false;
        }
        self.have.set(block_index as usize, true);
        if self.next_hashed_block == block_index {
            match self.hashed.take() {
                Some(mut h) => {
                    let mut k: usize = 0;
                    let ghost start = h@;
                    while k < data.len()
                        invariant
                            k <= data@.len(),
                            h@ == start + data@.take(k as int),
                        decreases data@.len() - k,
                    {
                        h.push(data[k]);
                        k = k + 1;
                        assert(h@ =~= start + data@.take(k as int));
                    }
                    assert(data@.take(k as int) =~= data@);
                    self.hashed = Some(h);
                },
                None => {},
            }
            self.next_hashed_block = self.next_hashed_block + 1;
        } else {
            self.hashed = None;
        }
        let offset: u64 = block_index as u64 * BLOCK_SIZE;
        let len = self.bytes.len();
        if offset < len as u64 {
            let offset = offset as usize;
            let end = if data.len() < len - offset {
                offset + data.len()
            } else {
                len
            };
            let ghost before = self.bytes@;
            let ghost mid = self@;
            let mut k: usize = offset;
            while k < end
                invariant
                    self@.have == mid.have,
                    self@.hashed == mid.hashed,
                    self@.next_hashed_block == mid.next_hashed_block,
                    self@.piece_index == mid.piece_index,
                    self@.hash == mid.hash,
                    offset <= k <= end <= before.len(),
                    end - offset <= data@.len(),
                    self.bytes@.len() == before.len(),
                    self.bytes@ == before.subrange(0, offset as int) + data@.subrange(0, k - offset)
                        + before.subrange(k as int, before.len() as int),
                decreases end - k,
            {
                self.bytes.set(k, data[k - offset]);
                k = k + 1;
                assert(self.bytes@ =~= before.subrange(0, offset as int) + data@.subrange(0, k - offset)
                    + before.subrange(k as int, before.len() as int));
            }
        }
        proof {
            let (expected, _) = spec_accept(old(self)@, block_index, data@);
            assert(self@.bytes =~= expected.bytes);
            assert(self@.have =~= expected.have);
        }
        true
    }

    /// The piece's hash, from the running hash when it saw every block in
    /// order, and from the assembled bytes otherwise. The running hash is
    /// used up.
    pub fn digest(&mut self) -> (r: [u8; 20])
        ensures
            r@ == spec_digest(old(self)@),
            final(self)@ == (PieceBufferView { hashed: None, ..old(self)@ }),
    {
        let blocks_total = self.have.len();
        let hashed = self.hashed.take();
        match hashed {
            Some(h) => if self.next_hashed_block as usize == blocks_total {
                sha1(h.as_slice())
            } else {
                sha1(self.bytes.as_slice())
            },
            None => sha1(self.bytes.as_slice()),
        }
    }

    /// Whether the assembled piece hashes to what the torrent says.
    pub fn verify(&mut self) -> (r: bool)
        ensures
            r == (spec_digest(old(self)@) == old(self)@.hash),
            final(self)@ == (PieceBufferView { hashed: None, ..old(self)@ }),
    {
        let digest = self.digest();
        bytes_eq(digest.as_slice(), self.hash.as_slice())
    }
}

/// A block is taken at most once: a second copy of one already held is
/// refused and changes nothing.
pub proof fn law_accept_once(b: PieceBufferView, block_index: u32, first: Seq<u8>, second: Seq<u8>)
    requires
        spec_accept(b, block_index, first).1,
    ensures
        spec_accept(spec_accept(b, block_index, first).0, block_index, second) == (
        spec_accept(b, block_index, first).0,
        false,
        ),
{
}

/// A piece is complete exactly when every one of its blocks has been taken
/// in; taking one in never makes a complete piece incomplete.
pub proof fn law_accept_keeps_blocks(b: PieceBufferView, block_index: u32, data: Seq<u8>)
    ensures
        forall|i: int|
            0 <= i < b.have.len() && b.have[i] ==> #[trigger] spec_accept(b, block_index, data).0.have[i],
        spec_accept(b, block_index, data).0.have.len() == b.have.len(),
        spec_accept(b, block_index, data).1 ==> spec_accept(b, block_index, data).0.have[block_index as int],
{
}

/// How many blocks one connection keeps requested at once.
pub const MAX_REQUESTS: usize = 50;

/// How many pieces one connection assembles at once, so the request window
/// stays full across a piece boundary.
pub const MAX_PIECES_IN_FLIGHT: usize = 4;

/// A block asked for and not yet given.
#[derive(Clone, Copy, Debug, PartialEq, Eq, Structural)]
pub struct ActiveBlock {
    pub piece_index: u32,
    pub index: u32,
}

/// One piece being assembled, with the blocks of it still to ask for.
pub struct PieceInFlight {
    pub buffer: PieceBuffer,
    pub piece_length: u64,
    /// Not yet requested, in the order they will be.
    pub pending: Vec<u32>,
}

/// A [`PieceInFlight`] as plain values.
pub struct PieceInFlightView {
    pub buffer: PieceBufferView,
    pub piece_length: u64,
    pub pending: Seq<u32>,
}

impl View for PieceInFlight {
    type V = PieceInFlightView;

    open spec fn view(&self) -> PieceInFlightView {
        PieceInFlightView { buffer: self.buffer@, piece_length: self.piece_length, pending: self.pending@ }
    }
}

impl PieceInFlightView {
    pub open spec fn wf(self) -> bool {
        &&& self.buffer.wf()
        &&& self.buffer.bytes.len() == self.piece_length
        &&& forall|j: int| 0 <= j < self.pending.len() ==> self.pending[j] < self.buffer.have.len()
    }
}

/// Byte range of one block: where it begins in its piece and how long it
/// is. The final block is short, measured against the piece's own length.
pub open spec fn spec_block_bounds(piece_length: u64, block_index: u32) -> (u32, u32) {
    let begin = block_index * BLOCK_SIZE;
    let left = if piece_length > begin {
        piece_length - begin
    } else {
        0
    };
    let length = if left < BLOCK_SIZE {
        left
    } else {
        BLOCK_SIZE as int
    };
    (begin as u32, length as u32)
}

impl PieceInFlight {
    pub fn piece_index(&self) -> (r: u32)
        ensures
            r == self.buffer.piece_index,
    {
        self.buffer.piece_index
    }

    /// Byte range of one block. The final block of a piece is short, and the
    /// final piece of a torrent is itself short, so this is measured against
    /// the piece's own length.
    pub fn block_bounds(&self, block_index: u32) -> (r: (u32, u32))
        ensures
            r == spec_block_bounds(self.piece_length, block_index),
    {
        let begin: u64 = block_index as u64 * BLOCK_SIZE;
        let left: u64 = if self.piece_length > begin {
            self.piece_length - begin
        } else {
            0
        };
        let length: u64 = if left < BLOCK_SIZE {
            left
        } else {
            BLOCK_SIZE
        };
        (begin as u32, length as u32)
    }
}

/// A piece just taken on: nothing held, every block still to ask for, in
/// order.
pub open spec fn fresh_piece(piece_index: u32, hash: Seq<u8>, piece_length: u64) -> PieceInFlightView {
    PieceInFlightView {
        buffer: PieceBufferView {
            piece_index,
            hash,
            bytes: Seq::new(piece_length as nat, |i: int| 0u8),
            hashed: Some(Seq::<u8>::empty()),
            next_hashed_block: 0,
            have: Seq::new(block_count(piece_length) as nat, |i: int| false),
        },
        piece_length,
        pending: Seq::new(block_count(piece_length) as nat, |i: int| i as u32),
    }
}

/// What one connection has asked for and is assembling, and where both
/// sides stand on choking and interest.
pub struct RequestState {
    pub am_choking: bool,
    pub am_interested: bool,
    pub peer_choking: bool,
    pub peer_interested: bool,
    /// What the peer holds.
    pub peer_bitfield: Bitfield,
    /// Pieces this connection is assembling, oldest first.
    pub in_flight: Vec<PieceInFlight>,
    pub active_blocks: Vec<ActiveBlock>,
}

/// A [`RequestState`] as plain values.
pub struct RequestView {
    pub am_choking: bool,
    pub am_interested: bool,
    pub peer_choking: bool,
    pub peer_interested: bool,
    pub peer_bitfield: Seq<u8>,
    pub in_flight: Seq<PieceInFlightView>,
    pub active_blocks: Seq<ActiveBlock>,
}

impl View for RequestState {
    type V = RequestView;

    open spec fn view(&self) -> RequestView {
        RequestView {
            am_choking: self.am_choking,
            am_interested: self.am_interested,
            peer_choking: self.peer_choking,
            peer_interested: self.peer_interested,
            peer_bitfield: self.peer_bitfield@,
            in_flight: Seq::new(self.in_flight@.len(), |i: int| self.in_flight@[i]@),
            active_blocks: self.active_blocks@,
        }
    }
}

impl RequestView {
    /// The request window and the pieces held stay within their limits, and
    /// every piece held is well formed.
    pub open spec fn wf(self) -> bool {
        &&& self.active_blocks.len() <= MAX_REQUESTS
        &&& self.in_flight.len() <= MAX_PIECES_IN_FLIGHT
        &&& forall|i: int| 0 <= i < self.in_flight.len() ==> (#[trigger] self.in_flight[i]).wf()
    }
}

/// The first slot at or after `i` holding piece `piece_index`.
pub open spec fn slot_from(s: Seq<PieceInFlightView>, piece_index: u32, i: int) -> Option<int>
    decreases s.len() - i,
{
    if i < 0 || i >= s.len() {
        None
    } else if s[i].buffer.piece_index == piece_index {
        Some(i)
    } else {
        slot_from(s, piece_index, i + 1)
    }
}

/// The first slot at or after `i` with blocks still to ask for.
pub open spec fn pending_from(s: Seq<PieceInFlightView>, i: int) -> Option<int>
    decreases s.len() - i,
{
    if i < 0 || i >= s.len() {
        None
    } else if s[i].pending.len() > 0 {
        Some(i)
    } else {
        pending_from(s, i + 1)
    }
}

/// The first position at or after `i` of an outstanding request for block
/// `index` of piece `piece_index`.
pub open spec fn active_from(a: Seq<ActiveBlock>, piece_index: u32, index: u32, i: int) -> Option<int>
    decreases a.len() - i,
{
    if i < 0 || i >= a.len() {
        None
    } else if a[i].piece_index == piece_index && a[i].index == index {
        Some(i)
    } else {
        active_from(a, piece_index, index, i + 1)
    }
}

proof fn lemma_slot_from(s: Seq<PieceInFlightView>, piece_index: u32, i: int)
    ensures
        slot_from(s, piece_index, i) matches Some(j) ==> 0 <= i <= j < s.len() && s[j].buffer.piece_index
            == piece_index,
    decreases s.len() - i,
{
    if 0 <= i < s.len() && s[i].buffer.piece_index != piece_index {
        lemma_slot_from(s, piece_index, i + 1);
    }
}

proof fn lemma_pending_from(s: Seq<PieceInFlightView>, i: int)
    ensures
        pending_from(s, i) matches Some(j) ==> 0 <= i <= j < s.len() && s[j].pending.len() > 0,
    decreases s.len() - i,
{
    if 0 <= i < s.len() && s[i].pending.len() == 0 {
        lemma_pending_from(s, i + 1);
    }
}

proof fn lemma_active_from(a: Seq<ActiveBlock>, piece_index: u32, index: u32, i: int)
    ensures
        active_from(a, piece_index, index, i) matches Some(j) ==> 0 <= i <= j < a.len() && a[j].piece_index
            == piece_index && a[j].index == index,
    decreases a.len() - i,
{
    if 0 <= i < a.len() && !(a[i].piece_index == piece_index && a[i].index == index) {
        lemma_active_from(a, piece_index, index, i + 1);
    }
}

/// What the next step of topping up the request window is.
#[derive(Debug, PartialEq, Eq, Structural)]
pub enum FillStep {
    /// Ask the peer for this block.
    Request { index: u32, begin: u32, length: u32 },
    /// Nothing left to ask for in what is held: ask the piece manager for
    /// another piece, and take it on with [`RequestState::adopt_claim`].
    ClaimPiece,
    /// The window is full, or there is nothing to ask for.
    Done,
}

/// One step of topping up the request window: nothing while the peer chokes
/// us or we are not interested, nothing once the window is full; otherwise
/// the next block of the oldest piece that has one, or, failing that, a
/// request for another piece while fewer than the limit are held.
pub open spec fn spec_next_request(v: RequestView) -> (RequestView, FillStep) {
    if v.peer_choking || !v.am_interested || v.active_blocks.len() >= MAX_REQUESTS {
        (v, FillStep::Done)
    } else {
        match pending_from(v.in_flight, 0) {
            Some(slot) => {
                let piece = v.in_flight[slot];
                let block = piece.pending[0];
                let (begin, length) = spec_block_bounds(piece.piece_length, block);
                (
                    RequestView {
                        in_flight: v.in_flight.update(
                            slot,
                            PieceInFlightView { pending: piece.pending.drop_first(), ..piece },
                        ),
                        active_blocks: v.active_blocks.push(ActiveBlock { piece_index: piece.buffer.piece_index, index: block }),
                        ..v
                    },
                    FillStep::Request { index: piece.buffer.piece_index, begin, length },
                )
            },
            None => if v.in_flight.len() >= MAX_PIECES_IN_FLIGHT {
                (v, FillStep::Done)
            } else {
                (v, FillStep::ClaimPiece)
            },
        }
    }
}

impl RequestState {
    /// A connection that has just exchanged bitfields: both sides choking,
    /// neither interested, nothing asked for.
    pub fn new(peer_bitfield: Bitfield) -> (r: Self)
        ensures
            r@.wf(),
            r@.am_choking && !r@.am_interested && r@.peer_choking && !r@.peer_interested,
            r@.peer_bitfield == peer_bitfield@,
            r@.in_flight.len() == 0,
            r@.active_blocks.len() == 0,
            requests_distinct(r@),
    {
        RequestState {
            am_choking: true,
            am_interested: false,
            peer_choking: true,
            peer_interested: false,
            peer_bitfield,
            in_flight: Vec::new(),
            active_blocks: Vec::new(),
        }
    }

    /// Which of our in-flight pieces this index is, if any.
    pub fn slot_of(&self, piece_index: u32) -> (r: Option<usize>)
        ensures
            match slot_from(self@.in_flight, piece_index, 0) {
                Some(i) => r == Some(i as usize),
                None => r is None,
            },
    {
        let mut k: usize = 0;
        while k < self.in_flight.len()
            invariant
                k <= self.in_flight@.len(),
                slot_from(self@.in_flight, piece_index, 0) == slot_from(self@.in_flight, piece_index, k as int),
            decreases self.in_flight@.len() - k,
        {
            if self.in_flight[k].piece_index() == piece_index {
                return Some(k);
            }
            k = k + 1;
        }
        None
    }

    /// Where the outstanding request for a block is, if there is one.
    fn active_position(&self, piece_index: u32, index: u32) -> (r: Option<usize>)
        ensures
            match active_from(self@.active_blocks, piece_index, index, 0) {
                Some(i) => r == Some(i as usize),
                None => r is None,
            },
    {
        let mut k: usize = 0;
        while k < self.active_blocks.len()
            invariant
                k <= self.active_blocks@.len(),
                active_from(self@.active_blocks, piece_index, index, 0) == active_from(
                    self@.active_blocks,
                    piece_index,
                    index,
                    k as int,
                ),
            decreases self.active_blocks@.len() - k,
        {
            if self.active_blocks[k].piece_index == piece_index && self.active_blocks[k].index == index {
                return Some(k);
            }
            k = k + 1;
        }
        None
    }

    /// Records a piece the peer announced. `false` means the index falls
    /// outside the bitfield length both sides agreed on, and nothing changes.
    pub fn mark_peer_has(&mut self, index: u32) -> (r: bool)
        ensures
            r == ((index as int) / 8 < old(self)@.peer_bitfield.len()),
            r ==> final(self)@.peer_bitfield == spec_set_bit(old(self)@.peer_bitfield, index, true),
            r ==> bit_at(final(self)@.peer_bitfield, index as int),
            r ==> forall|j: int| j != index ==> bit_at(final(self)@.peer_bitfield, j) == bit_at(old(self)@.peer_bitfield, j),
            final(self)@.peer_bitfield.len() == old(self)@.peer_bitfield.len(),
            !r ==> final(self)@ == old(self)@,
            final(self)@ == (RequestView { peer_bitfield: final(self)@.peer_bitfield, ..old(self)@ }),
    {
        if (index / 8) as usize >= self.peer_bitfield.0.len() {
            return false;
        }
        self.peer_bitfield.set_piece(index, true);
        true
    }

    /// Takes the piece manager's answer on whether the peer holds anything we
    /// need, and says what to tell the peer: nothing if the answer did not
    /// change.
    pub fn set_interest(&mut self, interested: bool) -> (r: Option<Message>)
        ensures
            final(self)@ == (RequestView { am_interested: interested, ..old(self)@ }),
            interested == old(self)@.am_interested ==> r is None,
            interested != old(self)@.am_interested ==> (r matches Some(m) && m@ == (if interested {
                MessageView::Interested
            } else {
                MessageView::NotInterested
            })),
    {
        if interested == self.am_interested {
            return None;
        }
        self.am_interested = interested;
        if interested {
            Some(Message::Interested)
        } else {
            Some(Message::NotInterested)
        }
    }

    /// One step of keeping the request window full.
    pub fn next_request(&mut self) -> (r: FillStep)
        requires
            old(self)@.wf(),
        ensures
            final(self)@.wf(),
            (final(self)@, r) == spec_next_request(old(self)@),
            requests_distinct(old(self)@) ==> requests_distinct(final(self)@),
    {
        proof {
            if requests_distinct(self@) {
                law_filling_never_repeats_a_request(self@);
            }
        }
        if self.peer_choking || !self.am_interested || self.active_blocks.len() >= MAX_REQUESTS {
            return FillStep::Done;
        }
        let mut slot: usize = 0;
        while slot < self.in_flight.len() && self.in_flight[slot].pending.len() == 0
            invariant
                slot <= self.in_flight@.len(),
                pending_from(self@.in_flight, 0) == pending_from(self@.in_flight, slot as int),
            decreases self.in_flight@.len() - slot,
        {
            slot = slot + 1;
        }
        if slot == self.in_flight.len() {
            if self.in_flight.len() >= MAX_PIECES_IN_FLIGHT {
                return FillStep::Done;
            }
            return FillStep::ClaimPiece;
        }
        let ghost before = self@;
        let mut piece = self.in_flight.remove(slot);
        let block = piece.pending.remove(0);
        let piece_index = piece.piece_index();
        let (begin, length) = piece.block_bounds(block);
        proof {
            assert(piece@.pending =~= before.in_flight[slot as int].pending.drop_first());
        }
        self.in_flight.insert(slot, piece);
        self.active_blocks.push(ActiveBlock { piece_index, index: block });
        proof {
            let (expected, _) = spec_next_request(before);
            assert(self@.in_flight =~= expected.in_flight);
            assert(self@.active_blocks =~= expected.active_blocks);
            assert forall|i: int| 0 <= i < self@.in_flight.len() implies (#[trigger] self@.in_flight[i]).wf() by {
                if i != slot {
                    assert(self@.in_flight[i] == before.in_flight[i]);
                } else {
                    assert(before.in_flight[i].wf());
                }
            }
        }
        FillStep::Request { index: piece_index, begin, length }
    }

    /// Whether a piece the manager handed over can be taken on: there is room
    /// for another piece, this one is not held already, its bytes fit in
    /// memory and its blocks can be counted. One that cannot is handed back.
    pub fn may_adopt(&self, claim: &Claim) -> (r: bool)
        ensures
            r == (can_adopt(self@, claim.piece_index, claim.piece_length) && claim.piece_length <= usize::MAX),
    {
        if self.in_flight.len() >= MAX_PIECES_IN_FLIGHT {
            return false;
        }
        if claim.piece_length > usize::MAX as u64 {
            return false;
        }
        let blocks: u64 = if claim.piece_length % BLOCK_SIZE == 0 {
            claim.piece_length / BLOCK_SIZE
        } else {
            claim.piece_length / BLOCK_SIZE + 1
        };
        if blocks > u32::MAX as u64 {
            return false;
        }
        self.slot_of(claim.piece_index).is_none()
    }

    /// Takes on a piece the manager handed over: every block of it is to be
    /// asked for, in order.
    pub fn adopt_claim(&mut self, claim: &Claim)
        requires
            old(self)@.wf(),
            old(self)@.in_flight.len() < MAX_PIECES_IN_FLIGHT,
            claim.piece_length <= usize::MAX,
            block_count(claim.piece_length) <= u32::MAX,
        ensures
            final(self)@.wf(),
            final(self)@ == (RequestView {
                in_flight: old(self)@.in_flight.push(fresh_piece(claim.piece_index, claim.hash@, claim.piece_length)),
                ..old(self)@
            }),
            requests_distinct(old(self)@) && slot_from(old(self)@.in_flight, claim.piece_index, 0) is None
                ==> requests_distinct(final(self)@),
    {
        proof {
            if requests_distinct(self@) && slot_from(self@.in_flight, claim.piece_index, 0) is None {
                law_adopting_keeps_requests_distinct(self@, claim.piece_index, claim.hash@, claim.piece_length);
            }
        }
        let buffer = PieceBuffer::new(claim.piece_index, claim.hash, claim.piece_length);
        let blocks: u32 = buffer.have.len() as u32;
        let mut pending: Vec<u32> = Vec::new();
        let mut k: u32 = 0;
        while k < blocks
            invariant
                k <= blocks,
                pending@ == Seq::new(k as nat, |i: int| i as u32),
            decreases blocks - k,
        {
            pending.push(k);
            k = k + 1;
            assert(pending@ =~= Seq::new(k as nat, |i: int| i as u32));
        }
        let ghost before = self@;
        self.in_flight.push(PieceInFlight { buffer, piece_length: claim.piece_length, pending });
        proof {
            assert(self@.in_flight =~= before.in_flight.push(self@.in_flight.last()));
            assert forall|i: int| 0 <= i < self@.in_flight.len() implies (#[trigger] self@.in_flight[i]).wf() by {
                if i < before.in_flight.len() {
                    assert(self@.in_flight[i] == before.in_flight[i]);
                }
            }
        }
    }

    /// Hands every piece back: the indices to release, oldest first. Nothing
    /// of them was written, and nothing stays asked for.
    pub fn release_all(&mut self) -> (r: Vec<u32>)
        requires
            old(self)@.wf(),
        ensures
            final(self)@.wf(),
            r@ == Seq::new(old(self)@.in_flight.len(), |i: int| old(self)@.in_flight[i].buffer.piece_index),
            final(self)@ == (RequestView { in_flight: Seq::empty(), active_blocks: Seq::empty(), ..old(self)@ }),
            requests_distinct(final(self)@),
    {
        let mut held: Vec<u32> = Vec::new();
        let mut k: usize = 0;
        while k < self.in_flight.len()
            invariant
                k <= self.in_flight@.len(),
                held@ == Seq::new(k as nat, |i: int| self@.in_flight[i].buffer.piece_index),
            decreases self.in_flight@.len() - k,
        {
            held.push(self.in_flight[k].piece_index());
            k = k + 1;
            assert(held@ =~= Seq::new(k as nat, |i: int| self@.in_flight[i].buffer.piece_index));
        }
        self.active_blocks.clear();
        self.in_flight.clear();
        assert(self@.in_flight =~= Seq::<PieceInFlightView>::empty());
        held
    }

    /// Whether a peer's request can be served at all: we are not choking it,
    /// and it asks for at most one block from a block boundary.
    pub fn serve_check(&self, begin: u32, length: u32) -> (r: bool)
        ensures
            r == (!self.am_choking && begin % (BLOCK_SIZE as u32) == 0 && length <= BLOCK_SIZE),
    {
        !self.am_choking && (begin as u64) % BLOCK_SIZE == 0 && length as u64 <= BLOCK_SIZE
    }

    /// Whether the periodic availability check has anything to try: the peer
    /// is not choking us and the window has room.
    pub fn availability_due(&self) -> (r: bool)
        ensures
            r == (!self.peer_choking && self.active_blocks@.len() < MAX_REQUESTS),
    {
        !self.peer_choking && self.active_blocks.len() < MAX_REQUESTS
    }
}

/// What became of a block the peer sent.
#[derive(Debug)]
pub enum BlockReceipt {
    /// Not ours to take: a piece we are not working, an offset off a block
    /// boundary, or a block we never asked for. Wasted bytes.
    Unwanted { len: usize },
    /// A copy of a block already held: downloaded, and wasted.
    Duplicate { len: usize },
    /// Taken in; the piece is not whole yet.
    Stored { len: usize },
    /// Taken in, and it completed its piece, which is no longer held here.
    /// `verified` says whether the piece hashes to what the torrent says.
    Completed { len: usize, piece_index: u32, verified: bool, bytes: Vec<u8> },
}

/// A [`BlockReceipt`] as plain values.
pub enum ReceiptView {
    Unwanted { len: nat },
    Duplicate { len: nat },
    Stored { len: nat },
    Completed { len: nat, piece_index: u32, verified: bool, bytes: Seq<u8> },
}

impl View for BlockReceipt {
    type V = ReceiptView;

    open spec fn view(&self) -> ReceiptView {
        match self {
            BlockReceipt::Unwanted { len } => ReceiptView::Unwanted { len: *len as nat },
            BlockReceipt::Duplicate { len } => ReceiptView::Duplicate { len: *len as nat },
            BlockReceipt::Stored { len } => ReceiptView::Stored { len: *len as nat },
            BlockReceipt::Completed { len, piece_index, verified, bytes } => ReceiptView::Completed {
                len: *len as nat,
                piece_index: *piece_index,
                verified: *verified,
                bytes: bytes@,
            },
        }
    }
}

/// The outstanding requests that are not for piece `piece_index`.
pub open spec fn without_piece(a: Seq<ActiveBlock>, piece_index: u32) -> Seq<ActiveBlock> {
    a.filter(|x: ActiveBlock| x.piece_index != piece_index)
}

/// Files a block the peer sent. Data for a piece we are not working, off a
/// block boundary, or never asked for is refused and changes nothing. A
/// block asked for is no longer outstanding; if its piece already had it,
/// it is a duplicate. A block that completes its piece takes the piece out of
/// the window, drops every request still outstanding for it, and says whether
/// the piece hashes right.
pub open spec fn spec_receive(v: RequestView, index: u32, begin: u32, data: Seq<u8>) -> (RequestView, ReceiptView) {
    let len = data.len();
    match slot_from(v.in_flight, index, 0) {
        None => (v, ReceiptView::Unwanted { len }),
        Some(slot) => if begin % (BLOCK_SIZE as u32) != 0 {
            (v, ReceiptView::Unwanted { len })
        } else {
            let block = (begin / (BLOCK_SIZE as u32)) as u32;
            match active_from(v.active_blocks, index, block, 0) {
                None => (v, ReceiptView::Unwanted { len }),
                Some(pos) => {
                    let active = v.active_blocks.update(pos, v.active_blocks.last()).drop_last();
                    let piece = v.in_flight[slot];
                    let (buffer, accepted) = spec_accept(piece.buffer, block, data);
                    if !accepted {
                        (RequestView { active_blocks: active, ..v }, ReceiptView::Duplicate { len })
                    } else {
                        let in_flight = v.in_flight.update(slot, PieceInFlightView { buffer, ..piece });
                        if buffer.complete() {
                            (
                                RequestView {
                                    in_flight: in_flight.update(slot, in_flight.last()).drop_last(),
                                    active_blocks: without_piece(active, index),
                                    ..v
                                },
                                ReceiptView::Completed {
                                    len,
                                    piece_index: index,
                                    verified: spec_digest(buffer) == buffer.hash,
                                    bytes: buffer.bytes,
                                },
                            )
                        } else {
                            (RequestView { in_flight, active_blocks: active, ..v }, ReceiptView::Stored { len })
                        }
                    }
                },
            }
        },
    }
}

/// The outstanding requests that are not for `piece_index`, order kept.
fn drop_requests_for(active: &Vec<ActiveBlock>, piece_index: u32) -> (r: Vec<ActiveBlock>)
    ensures
        r@ == without_piece(active@, piece_index),
        r@.len() <= active@.len(),
{
    let mut r: Vec<ActiveBlock> = Vec::new();
    let mut k: usize = 0;
    while k < active.len()
        invariant
            k <= active@.len(),
            r@ == without_piece(active@.take(k as int), piece_index),
            r@.len() <= k,
        decreases active@.len() - k,
    {
        proof {
            let pred = |x: ActiveBlock| x.piece_index != piece_index;
            assert(active@.take(k + 1) =~= active@.take(k as int).push(active@[k as int]));
            active@.take(k as int).lemma_filter_push(active@[k as int], pred);
        }
        if active[k].piece_index != piece_index {
            r.push(active[k]);
        }
        k = k + 1;
    }
    assert(active@.take(k as int) =~= active@);
    r
}

impl RequestState {
    /// Files a block the peer sent us.
    pub fn receive_block(&mut self, index: u32, begin: u32, block: Vec<u8>) -> (r: BlockReceipt)
        requires
            old(self)@.wf(),
        ensures
            final(self)@.wf(),
            (final(self)@, r@) == spec_receive(old(self)@, index, begin, block@),
            requests_distinct(old(self)@) ==> requests_distinct(final(self)@),
    {
        proof {
            if requests_distinct(self@) {
                law_receiving_keeps_requests_distinct(self@, index, begin, block@);
            }
        }
        let len = block.len();
        let slot = match self.slot_of(index) {
            Some(s) => s,
            None => return BlockReceipt::Unwanted { len },
        };
        if begin % (BLOCK_SIZE as u32) != 0 {
            return BlockReceipt::Unwanted { len };
        }
        let block_index: u32 = begin / (BLOCK_SIZE as u32);
        let position = match self.active_position(index, block_index) {
            Some(p) => p,
            None => return BlockReceipt::Unwanted { len },
        };
        let ghost before = self@;
        proof {
            lemma_slot_from(before.in_flight, index, 0);
            lemma_active_from(before.active_blocks, index, block_index, 0);
        }
        self.active_blocks.swap_remove(position);
        let ghost after_swap = self@;
        assert(self@.in_flight == before.in_flight);
        let mut piece = self.in_flight.remove(slot);
        assert(piece@ == before.in_flight[slot as int]);
        assert(before.in_flight[slot as int].wf());
        let accepted = piece.buffer.accept(block_index, block.as_slice());
        if !accepted {
            self.in_flight.insert(slot, piece);
            proof {
                assert(self@.in_flight =~= before.in_flight);
            }
            return BlockReceipt::Duplicate { len };
        }
        let complete = piece.buffer.is_complete();
        self.in_flight.insert(slot, piece);
        let ghost inserted = self@.in_flight;
        proof {
            let (expected, _) = spec_receive(before, index, begin, block@);
            assert(inserted =~= before.in_flight.update(
                slot as int,
                PieceInFlightView { buffer: inserted[slot as int].buffer, ..before.in_flight[slot as int] },
            ));
            assert forall|i: int| 0 <= i < inserted.len() implies (#[trigger] inserted[i]).wf() by {
                if i != slot {
                    assert(inserted[i] == before.in_flight[i]);
                }
            }
        }
        if !complete {
            return BlockReceipt::Stored { len };
        }
        let done = self.in_flight.swap_remove(slot);
        proof {
            assert(self@.in_flight =~= inserted.update(slot as int, inserted.last()).drop_last());
            assert forall|i: int| 0 <= i < self@.in_flight.len() implies (#[trigger] self@.in_flight[i]).wf() by {
                if i == slot {
                    assert(self@.in_flight[i] == inserted[inserted.len() - 1]);
                } else {
                    assert(self@.in_flight[i] == inserted[i]);
                }
            }
        }
        let PieceInFlight { buffer, piece_length: _, pending: _ } = done;
        let mut buffer = buffer;
        let verified = buffer.verify();
        self.active_blocks = drop_requests_for(&self.active_blocks, index);
        BlockReceipt::Completed { len, piece_index: index, verified, bytes: buffer.bytes }
    }
}

/// What a connection does about something the peer sent.
#[derive(Debug)]
pub enum Reaction {
    /// Nothing beyond having heard from the peer.
    Nothing,
    /// Choked: the peer drops every request it has not answered, so these
    /// pieces go back to the piece manager.
    Release { pieces: Vec<u32> },
    /// Unchoked: top up the request window.
    Fill,
    /// An interested peer we were choking: it is unchoked, and told so.
    SendUnchoke,
    /// The peer has a new piece: ask again whether it is interesting, then
    /// top up the request window.
    Reconsider,
    /// A second bitfield: the peer is not following the protocol.
    ProtocolViolation,
    /// A request we can serve, if we hold the piece.
    Serve { index: u32, begin: u32, length: u32 },
    /// A block arrived, and this is what became of it.
    Block(BlockReceipt),
}

/// A [`Reaction`] as plain values.
pub enum ReactionView {
    Nothing,
    Release { pieces: Seq<u32> },
    Fill,
    SendUnchoke,
    Reconsider,
    ProtocolViolation,
    Serve { index: u32, begin: u32, length: u32 },
    Block(ReceiptView),
}

impl View for Reaction {
    type V = ReactionView;

    open spec fn view(&self) -> ReactionView {
        match self {
            Reaction::Nothing => ReactionView::Nothing,
            Reaction::Release { pieces } => ReactionView::Release { pieces: pieces@ },
            Reaction::Fill => ReactionView::Fill,
            Reaction::SendUnchoke => ReactionView::SendUnchoke,
            Reaction::Reconsider => ReactionView::Reconsider,
            Reaction::ProtocolViolation => ReactionView::ProtocolViolation,
            Reaction::Serve { index, begin, length } => ReactionView::Serve {
                index: *index,
                begin: *begin,
                length: *length,
            },
            Reaction::Block(b) => ReactionView::Block(b@),
        }
    }
}

/// What a connection makes of one item from the peer: choking and interest
/// are recorded; a choke gives back every piece held; an interested peer
/// is unchoked; a `have` inside the agreed bitfield is recorded and calls for
/// reconsidering interest, one outside it is ignored; a second bitfield is a
/// violation; a request is served when it can be; a block is filed; cancels,
/// keep-alives, ports and anything else change nothing.
pub open spec fn spec_react(v: RequestView, item: WireItem) -> (RequestView, ReactionView) {
    match item {
        WireItem::Message(m) => match m@ {
            MessageView::Choke => (
                RequestView { peer_choking: true, in_flight: Seq::empty(), active_blocks: Seq::empty(), ..v },
                ReactionView::Release {
                    pieces: Seq::new(v.in_flight.len(), |i: int| v.in_flight[i].buffer.piece_index),
                },
            ),
            MessageView::Unchoke => (RequestView { peer_choking: false, ..v }, ReactionView::Fill),
            MessageView::Interested => if v.am_choking {
                (RequestView { peer_interested: true, am_choking: false, ..v }, ReactionView::SendUnchoke)
            } else {
                (RequestView { peer_interested: true, ..v }, ReactionView::Nothing)
            },
            MessageView::NotInterested => (RequestView { peer_interested: false, ..v }, ReactionView::Nothing),
            MessageView::Have(index) => if (index as int) / 8 < v.peer_bitfield.len() {
                (RequestView { peer_bitfield: spec_set_bit(v.peer_bitfield, index, true), ..v }, ReactionView::Reconsider)
            } else {
                (v, ReactionView::Nothing)
            },
            MessageView::Bitfield(_) => (v, ReactionView::ProtocolViolation),
            MessageView::Request { index, begin, length } => if !v.am_choking && begin % (BLOCK_SIZE as u32) == 0
                && length <= BLOCK_SIZE {
                (v, ReactionView::Serve { index, begin, length })
            } else {
                (v, ReactionView::Nothing)
            },
            MessageView::Piece { index, begin, block } => {
                let (next, receipt) = spec_receive(v, index, begin, block);
                (next, ReactionView::Block(receipt))
            },
            _ => (v, ReactionView::Nothing),
        },
        _ => (v, ReactionView::Nothing),
    }
}

impl RequestState {
    /// Handles one item from the peer, and says what is to be done about it.
    pub fn react(&mut self, item: WireItem) -> (r: Reaction)
        requires
            old(self)@.wf(),
        ensures
            final(self)@.wf(),
            (final(self)@, r@) == spec_react(old(self)@, item),
            requests_distinct(old(self)@) ==> requests_distinct(final(self)@),
    {
        proof {
            if requests_distinct(self@) {
                law_reacting_keeps_requests_distinct(self@, item);
            }
        }
        match item {
            WireItem::Message(m) => match m {
                Message::Choke => {
                    self.peer_choking = true;
                    let pieces = self.release_all();
                    Reaction::Release { pieces }
                },
                Message::Unchoke => {
                    self.peer_choking = false;
                    Reaction::Fill
                },
                Message::Interested => {
                    self.peer_interested = true;
                    if self.am_choking {
                        self.am_choking = false;
                        Reaction::SendUnchoke
                    } else {
                        Reaction::Nothing
                    }
                },
                Message::NotInterested => {
                    self.peer_interested = false;
                    Reaction::Nothing
                },
                Message::Have(index) => {
                    if self.mark_peer_has(index) {
                        Reaction::Reconsider
                    } else {
                        Reaction::Nothing
                    }
                },
                Message::Bitfield(_) => Reaction::ProtocolViolation,
                Message::Request { index, begin, length } => {
                    if self.serve_check(begin, length) {
                        Reaction::Serve { index, begin, length }
                    } else {
                        Reaction::Nothing
                    }
                },
                Message::Piece { index, begin, block } => Reaction::Block(self.receive_block(index, begin, block)),
                _ => Reaction::Nothing,
            },
            _ => Reaction::Nothing,
        }
    }
}

/// What to do with the timer that gives up on requests, after an item from
/// the peer was handled.
#[derive(Clone, Copy, Debug, PartialEq, Eq, Structural)]
pub enum RequestTimer {
    /// Nothing is outstanding: no timer.
    Disarm,
    /// Start the full wait again from now.
    Rearm,
    /// Leave it running.
    Keep,
}

impl RequestState {
    /// Only block data pushes the request timer back, so a peer that chats
    /// but never delivers stops holding our blocks hostage; and the timer
    /// runs only while something is outstanding.
    pub fn request_timer(&self, carried_block: bool, armed: bool) -> (r: RequestTimer)
        ensures
            self.active_blocks@.len() == 0 ==> r == RequestTimer::Disarm,
            self.active_blocks@.len() > 0 && (carried_block || !armed) ==> r == RequestTimer::Rearm,
            self.active_blocks@.len() > 0 && !carried_block && armed ==> r == RequestTimer::Keep,
    {
        if self.active_blocks.len() == 0 {
            RequestTimer::Disarm
        } else if carried_block || !armed {
            RequestTimer::Rearm
        } else {
            RequestTimer::Keep
        }
    }
}

/// A block that was never asked for is refused, whatever it holds, and
/// leaves every request and every piece as it was.
pub proof fn law_unrequested_block_changes_nothing(v: RequestView, index: u32, begin: u32, data: Seq<u8>)
    requires
        forall|i: int| 0 <= i < v.active_blocks.len() ==> !(#[trigger] v.active_blocks[i].piece_index == index
            && v.active_blocks[i].index == begin / (BLOCK_SIZE as u32)),
    ensures
        spec_receive(v, index, begin, data).0 == v,
        spec_receive(v, index, begin, data).1 == (ReceiptView::Unwanted { len: data.len() }),
{
    if slot_from(v.in_flight, index, 0) is Some && begin % (BLOCK_SIZE as u32) == 0 {
        let block = (begin / (BLOCK_SIZE as u32)) as u32;
        lemma_active_from(v.active_blocks, index, block, 0);
    }
}

/// Once a piece is complete nothing is left asked for from it: its
/// outstanding requests are dropped with it.
pub proof fn law_completion_clears_requests(v: RequestView, index: u32, begin: u32, data: Seq<u8>)
    requires
        spec_receive(v, index, begin, data).1 is Completed,
    ensures
        forall|i: int|
            0 <= i < spec_receive(v, index, begin, data).0.active_blocks.len() ==> (#[trigger] spec_receive(
                v,
                index,
                begin,
                data,
            ).0.active_blocks[i]).piece_index != index,
{
    let block = (begin / (BLOCK_SIZE as u32)) as u32;
    let pos = active_from(v.active_blocks, index, block, 0)->0;
    let active = v.active_blocks.update(pos, v.active_blocks.last()).drop_last();
    let pred = |x: ActiveBlock| x.piece_index != index;
    let kept = active.filter(pred);
    assert forall|i: int| 0 <= i < kept.len() implies (#[trigger] kept[i]).piece_index != index by {
        broadcast use vstd::seq_lib::group_filter_ensures;
    }
}

impl RequestState {
    /// The answer to a request that passed [`RequestState::serve_check`],
    /// once the piece manager said whether we hold the piece and the store
    /// gave back the block: nothing if we do not hold it or the store had
    /// nothing, the block otherwise.
    pub fn serve_answer(has_piece: bool, index: u32, begin: u32, block: Vec<u8>) -> (r: Option<Message>)
        ensures
            (!has_piece || block@.len() == 0) ==> r is None,
            (has_piece && block@.len() > 0) ==> (r matches Some(m) && m@ == MessageView::Piece {
                index,
                begin,
                block: block@,
            }),
    {
        if !has_piece || block.len() == 0 {
            None
        } else {
            Some(Message::Piece { index, begin, block })
        }
    }
}

/// The blocks of a piece tile it exactly: each lies inside the piece and is
/// never empty, every block but the last is a whole block, and the last ends
/// where the piece does, however short the piece.
pub proof fn law_blocks_tile_piece(piece_length: u64, block_index: u32)
    requires
        piece_length <= u32::MAX,
        block_index < block_count(piece_length),
    ensures
        spec_block_bounds(piece_length, block_index).0 == block_index * BLOCK_SIZE,
        0 < spec_block_bounds(piece_length, block_index).1,
        spec_block_bounds(piece_length, block_index).0 + spec_block_bounds(piece_length, block_index).1
            <= piece_length,
        block_index + 1 < block_count(piece_length) ==> spec_block_bounds(piece_length, block_index).1
            == BLOCK_SIZE,
        block_index + 1 == block_count(piece_length) ==> spec_block_bounds(piece_length, block_index).0
            + spec_block_bounds(piece_length, block_index).1 == piece_length,
{
    let p = piece_length as int;
    let l = BLOCK_SIZE as int;
    let i = block_index as int;
    let c = block_count(piece_length);
    assert(l * i < p) by (nonlinear_arith)
        requires
            l > 0,
            0 <= i < c,
            c == (if p % l == 0 { p / l } else { p / l + 1 }),
    ;
    assert(i + 1 < c ==> l * i + l <= p) by (nonlinear_arith)
        requires
            l > 0,
            0 <= i,
            c == (if p % l == 0 { p / l } else { p / l + 1 }),
    ;
    assert(i + 1 == c ==> p - l * i <= l) by (nonlinear_arith)
        requires
            l > 0,
            0 <= i,
            c == (if p % l == 0 { p / l } else { p / l + 1 }),
    ;
    assert(i * l == l * i) by (nonlinear_arith);
}

/// A buffer after taking `blocks` in, block `i` as the `i`-th.
pub open spec fn feed(b: PieceBufferView, blocks: Seq<Seq<u8>>) -> PieceBufferView
    decreases blocks.len(),
{
    if blocks.len() == 0 {
        b
    } else {
        spec_accept(feed(b, blocks.drop_last()), (blocks.len() - 1) as u32, blocks.last()).0
    }
}

/// A buffer as a claim starts it: no block held, nothing hashed.
pub open spec fn is_fresh(b: PieceBufferView, piece_length: u64) -> bool {
    &&& b.bytes.len() == piece_length
    &&& b.have == Seq::new(block_count(piece_length) as nat, |i: int| false)
    &&& b.hashed == Some(Seq::<u8>::empty())
    &&& b.next_hashed_block == 0
}

proof fn lemma_feed_in_order(piece_length: u64, b: PieceBufferView, blocks: Seq<Seq<u8>>)
    requires
        piece_length <= u32::MAX,
        is_fresh(b, piece_length),
        blocks.len() <= block_count(piece_length),
        forall|i: int| 0 <= i < blocks.len() ==> (#[trigger] blocks[i]).len() == spec_block_bounds(piece_length, i as u32).1,
    ensures
        feed(b, blocks).bytes.len() == piece_length,
        feed(b, blocks).have.len() == block_count(piece_length),
        forall|j: int| 0 <= j < block_count(piece_length) ==> #[trigger] feed(b, blocks).have[j] == (j < blocks.len()),
        feed(b, blocks).next_hashed_block == blocks.len(),
        blocks.len() < block_count(piece_length) ==> feed(b, blocks).hashed == Some(
            feed(b, blocks).bytes.take(blocks.len() * BLOCK_SIZE),
        ),
        blocks.len() == block_count(piece_length) ==> feed(b, blocks).hashed == Some(feed(b, blocks).bytes),
    decreases blocks.len(),
{
    if blocks.len() > 0 {
        let k = (blocks.len() - 1) as int;
        let prev = blocks.drop_last();
        assert forall|i: int| 0 <= i < prev.len() implies (#[trigger] prev[i]).len() == spec_block_bounds(
            piece_length,
            i as u32,
        ).1 by {
            assert(prev[i] == blocks[i]);
        }
        lemma_feed_in_order(piece_length, b, prev);
        let f = feed(b, prev);
        let data = blocks.last();
        assert(data == blocks[k]);
        law_blocks_tile_piece(piece_length, k as u32);
        let offset = k * BLOCK_SIZE;
        let len = data.len() as int;
        assert(!f.have[k]);
        assert(f.hashed == Some(f.bytes.take(offset)));
        let g = spec_accept(f, k as u32, data).0;
        assert(offset < f.bytes.len());
        assert(offset + len <= f.bytes.len());
        assert(g.bytes =~= f.bytes.subrange(0, offset) + data + f.bytes.subrange(offset + len, f.bytes.len() as int));
        assert(g.hashed == Some(f.bytes.take(offset) + data));
        if k + 1 < block_count(piece_length) {
            assert(len == BLOCK_SIZE);
            assert(g.bytes.take((k + 1) * BLOCK_SIZE) =~= f.bytes.take(offset) + data);
        } else {
            assert(offset + len == piece_length);
            assert(g.bytes =~= f.bytes.take(offset) + data);
        }
        assert forall|j: int| 0 <= j < block_count(piece_length) implies #[trigger] g.have[j] == (j < blocks.len()) by {
            if j != k {
                assert(g.have[j] == f.have[j]);
            }
        }
    }
}

/// Blocks that arrive in order, each exactly as long as asked for, are
/// hashed as they come; the running hash then covers exactly the assembled
/// piece, so the digest it gives is the digest of the piece.
pub proof fn law_in_order_digest_is_the_piece_digest(piece_length: u64, b: PieceBufferView, blocks: Seq<Seq<u8>>)
    requires
        piece_length <= u32::MAX,
        is_fresh(b, piece_length),
        blocks.len() == block_count(piece_length),
        forall|i: int| 0 <= i < blocks.len() ==> (#[trigger] blocks[i]).len() == spec_block_bounds(piece_length, i as u32).1,
    ensures
        feed(b, blocks).complete(),
        feed(b, blocks).hashed == Some(feed(b, blocks).bytes),
        spec_digest(feed(b, blocks)) == sha1_digest(feed(b, blocks).bytes),
{
    lemma_feed_in_order(piece_length, b, blocks);
    let f = feed(b, blocks);
    assert forall|j: int| 0 <= j < f.have.len() implies f.have[j] by {
        assert(f.have[j] == (j < blocks.len()));
    }
}

/// The first block of a piece still to be asked for; every block before it
/// has been asked for already.
pub open spec fn first_pending(p: PieceInFlightView) -> int {
    p.buffer.have.len() - p.pending.len()
}

/// Whether the blocks still to ask for are exactly the tail of the piece, in
/// order.
pub open spec fn pending_is_tail(p: PieceInFlightView) -> bool {
    &&& p.pending.len() <= p.buffer.have.len()
    &&& forall|i: int| 0 <= i < p.pending.len() ==> p.pending[i] == first_pending(p) + i
}

/// Whether an outstanding request belongs to a piece being assembled, and to
/// the part of it already asked for.
pub open spec fn covered(s: Seq<PieceInFlightView>, a: ActiveBlock) -> bool {
    exists|k: int|
        0 <= k < s.len() && (#[trigger] s[k]).buffer.piece_index == a.piece_index && a.index < first_pending(s[k])
}

/// No block is asked for twice: each piece held is held once, what is left to
/// ask for is the tail of each piece, every outstanding request lies before
/// that tail, and no request is outstanding twice.
pub open spec fn requests_distinct(v: RequestView) -> bool {
    &&& forall|k: int| 0 <= k < v.in_flight.len() ==> pending_is_tail(#[trigger] v.in_flight[k])
    &&& forall|k: int, l: int|
        0 <= k < l < v.in_flight.len() ==> (#[trigger] v.in_flight[k]).buffer.piece_index != (
        #[trigger] v.in_flight[l]).buffer.piece_index
    &&& forall|i: int| 0 <= i < v.active_blocks.len() ==> covered(v.in_flight, #[trigger] v.active_blocks[i])
    &&& forall|i: int, j: int|
        0 <= i < j < v.active_blocks.len() ==> #[trigger] v.active_blocks[i] != #[trigger] v.active_blocks[j]
}

/// Taking a request out of the outstanding ones, as `swap_remove` does, keeps
/// them distinct and keeps each one that stays.
proof fn lemma_swap_remove_active(a: Seq<ActiveBlock>, pos: int)
    requires
        0 <= pos < a.len(),
        forall|i: int, j: int| 0 <= i < j < a.len() ==> #[trigger] a[i] != #[trigger] a[j],
    ensures
        forall|i: int, j: int|
            0 <= i < j < a.update(pos, a.last()).drop_last().len() ==> #[trigger] a.update(pos, a.last()).drop_last()[i]
                != #[trigger] a.update(pos, a.last()).drop_last()[j],
        forall|i: int|
            0 <= i < a.update(pos, a.last()).drop_last().len() ==> a.contains(
                #[trigger] a.update(pos, a.last()).drop_last()[i],
            ),
{
    let b = a.update(pos, a.last()).drop_last();
    let n = a.len() - 1;
    assert forall|i: int| 0 <= i < b.len() implies a.contains(#[trigger] b[i]) by {
        if i == pos {
            assert(b[i] == a[n]);
        } else {
            assert(b[i] == a[i]);
        }
    }
    assert forall|i: int, j: int| 0 <= i < j < b.len() implies #[trigger] b[i] != #[trigger] b[j] by {
        let si = if i == pos { n } else { i };
        let sj = if j == pos { n } else { j };
        assert(b[i] == a[si]);
        assert(b[j] == a[sj]);
        if si < sj {
            assert(a[si] != a[sj]);
        } else {
            assert(a[sj] != a[si]);
        }
    }
}

/// Filtering keeps outstanding requests distinct.
proof fn lemma_filter_active_distinct(a: Seq<ActiveBlock>, pred: spec_fn(ActiveBlock) -> bool, i: int, j: int)
    requires
        forall|x: int, y: int| 0 <= x < y < a.len() ==> #[trigger] a[x] != #[trigger] a[y],
        0 <= i < j < a.filter(pred).len(),
    ensures
        a.filter(pred)[i] != a.filter(pred)[j],
    decreases a.len(),
{
    broadcast use vstd::seq_lib::group_filter_ensures;

    reveal(Seq::filter);
    if a.len() > 0 {
        let p = a.drop_last();
        let f = p.filter(pred);
        if pred(a.last()) {
            assert(a.filter(pred) == f.push(a.last()));
            if j < f.len() {
                lemma_filter_active_distinct(p, pred, i, j);
            } else {
                assert(f.contains(f[i]));
                p.lemma_filter_contains_rev(pred, f[i]);
                let k = choose|k: int| 0 <= k < p.len() && p[k] == f[i];
                assert(a[k] == f[i]);
                assert(a[k] != a[a.len() - 1]);
            }
        } else {
            assert(a.filter(pred) == f);
            lemma_filter_active_distinct(p, pred, i, j);
        }
    }
}

/// Asking for the next block asks for one that is not already outstanding,
/// and keeps every request distinct.
pub proof fn law_filling_never_repeats_a_request(v: RequestView)
    requires
        requests_distinct(v),
    ensures
        requests_distinct(spec_next_request(v).0),
        spec_next_request(v).1 is Request ==> !v.active_blocks.contains(spec_next_request(v).0.active_blocks.last()),
{
    if !(v.peer_choking || !v.am_interested || v.active_blocks.len() >= MAX_REQUESTS) {
        lemma_pending_from(v.in_flight, 0);
        if let Some(slot) = pending_from(v.in_flight, 0) {
            let p = v.in_flight[slot];
            let block = p.pending[0];
            let p2 = PieceInFlightView { pending: p.pending.drop_first(), ..p };
            let w = spec_next_request(v).0;
            let new = ActiveBlock { piece_index: p.buffer.piece_index, index: block };
            assert(w.in_flight == v.in_flight.update(slot, p2));
            assert(w.active_blocks == v.active_blocks.push(new));
            assert(pending_is_tail(p));
            assert(block == first_pending(p));
            assert(first_pending(p2) == first_pending(p) + 1);
            assert forall|k: int| 0 <= k < w.in_flight.len() implies pending_is_tail(#[trigger] w.in_flight[k]) by {
                if k == slot {
                    assert forall|i: int| 0 <= i < p2.pending.len() implies p2.pending[i] == first_pending(p2) + i by {
                        assert(p2.pending[i] == p.pending[i + 1]);
                    }
                } else {
                    assert(w.in_flight[k] == v.in_flight[k]);
                }
            }
            assert forall|k: int, l: int| 0 <= k < l < w.in_flight.len() implies (#[trigger] w.in_flight[k]).buffer.piece_index
                != (#[trigger] w.in_flight[l]).buffer.piece_index by {
                assert(w.in_flight[k].buffer.piece_index == v.in_flight[k].buffer.piece_index);
                assert(w.in_flight[l].buffer.piece_index == v.in_flight[l].buffer.piece_index);
                assert(v.in_flight[k].buffer.piece_index != v.in_flight[l].buffer.piece_index);
            }
            assert forall|i: int| 0 <= i < w.active_blocks.len() implies covered(w.in_flight, #[trigger] w.active_blocks[i]) by {
                if i < v.active_blocks.len() {
                    let a = v.active_blocks[i];
                    assert(covered(v.in_flight, a));
                    let k = choose|k: int|
                        0 <= k < v.in_flight.len() && (#[trigger] v.in_flight[k]).buffer.piece_index == a.piece_index
                            && a.index < first_pending(v.in_flight[k]);
                    assert(w.active_blocks[i] == a);
                    assert(w.in_flight[k].buffer.piece_index == a.piece_index);
                    assert(a.index < first_pending(w.in_flight[k]));
                } else {
                    assert(w.active_blocks[i] == new);
                    assert(w.in_flight[slot] == p2);
                }
            }
            assert forall|i: int| 0 <= i < v.active_blocks.len() implies v.active_blocks[i] != new by {
                let a = v.active_blocks[i];
                assert(covered(v.in_flight, a));
                let k = choose|k: int|
                    0 <= k < v.in_flight.len() && (#[trigger] v.in_flight[k]).buffer.piece_index == a.piece_index
                        && a.index < first_pending(v.in_flight[k]);
                if a == new {
                    if k < slot {
                        assert(v.in_flight[k].buffer.piece_index != v.in_flight[slot].buffer.piece_index);
                    } else if k > slot {
                        assert(v.in_flight[slot].buffer.piece_index != v.in_flight[k].buffer.piece_index);
                    }
                }
            }
            assert forall|i: int, j: int| 0 <= i < j < w.active_blocks.len() implies #[trigger] w.active_blocks[i]
                != #[trigger] w.active_blocks[j] by {
                if j == v.active_blocks.len() {
                    assert(w.active_blocks[i] == v.active_blocks[i]);
                } else {
                    assert(w.active_blocks[i] == v.active_blocks[i]);
                    assert(w.active_blocks[j] == v.active_blocks[j]);
                }
            }
            assert(w.active_blocks.last() == new);
        }
    }
}


/// Where an element of `s` stands after the one at `slot` is taken out the
/// way `swap_remove` does it: the last one fills the gap.
spec fn swap_source(n: int, slot: int, i: int) -> int {
    if i == slot {
        n - 1
    } else {
        i
    }
}

proof fn lemma_swap_remove_pieces(s: Seq<PieceInFlightView>, slot: int)
    requires
        0 <= slot < s.len(),
    ensures
        forall|i: int|
            0 <= i < s.len() - 1 ==> #[trigger] s.update(slot, s.last()).drop_last()[i] == s[swap_source(
                s.len() as int,
                slot,
                i,
            )],
{
    let r = s.update(slot, s.last()).drop_last();
    assert forall|i: int| 0 <= i < s.len() - 1 implies #[trigger] r[i] == s[swap_source(s.len() as int, slot, i)] by {
        if i == slot {
            assert(r[i] == s.last());
        } else {
            assert(r[i] == s[i]);
        }
    }
}

/// A block that arrives keeps every request distinct: the request it
/// answers is no longer outstanding, and a piece it completes leaves the
/// window with every request for it.
pub proof fn law_receiving_keeps_requests_distinct(v: RequestView, index: u32, begin: u32, data: Seq<u8>)
    requires
        requests_distinct(v),
    ensures
        requests_distinct(spec_receive(v, index, begin, data).0),
{
    lemma_slot_from(v.in_flight, index, 0);
    if let Some(slot) = slot_from(v.in_flight, index, 0) {
        if begin % (BLOCK_SIZE as u32) == 0 {
            let block = (begin / (BLOCK_SIZE as u32)) as u32;
            lemma_active_from(v.active_blocks, index, block, 0);
            if let Some(pos) = active_from(v.active_blocks, index, block, 0) {
                let a = v.active_blocks;
                let active = a.update(pos, a.last()).drop_last();
                lemma_swap_remove_active(a, pos);
                let w = spec_receive(v, index, begin, data).0;
                assert forall|i: int| 0 <= i < active.len() implies covered(v.in_flight, #[trigger] active[i]) by {
                    assert(a.contains(active[i]));
                    let j = choose|j: int| 0 <= j < a.len() && a[j] == active[i];
                    assert(covered(v.in_flight, a[j]));
                }
                let piece = v.in_flight[slot];
                let (buffer, accepted) = spec_accept(piece.buffer, block, data);
                if accepted {
                    let in_flight = v.in_flight.update(slot, PieceInFlightView { buffer, ..piece });
                    assert forall|k: int| 0 <= k < in_flight.len() implies (#[trigger] in_flight[k]).buffer.piece_index
                        == v.in_flight[k].buffer.piece_index && first_pending(in_flight[k]) == first_pending(
                        v.in_flight[k],
                    ) && pending_is_tail(in_flight[k]) by {
                        assert(pending_is_tail(v.in_flight[k]));
                    }
                    assert forall|x: ActiveBlock| covered(v.in_flight, x) implies covered(in_flight, x) by {
                        let k = choose|k: int|
                            0 <= k < v.in_flight.len() && (#[trigger] v.in_flight[k]).buffer.piece_index == x.piece_index
                                && x.index < first_pending(v.in_flight[k]);
                        assert(in_flight[k].buffer.piece_index == x.piece_index);
                    }
                    assert forall|k: int, l: int| 0 <= k < l < in_flight.len() implies (#[trigger] in_flight[k]).buffer.piece_index
                        != (#[trigger] in_flight[l]).buffer.piece_index by {
                        assert(v.in_flight[k].buffer.piece_index != v.in_flight[l].buffer.piece_index);
                    }
                    if buffer.complete() {
                        let n = in_flight.len() as int;
                        let fin = in_flight.update(slot, in_flight.last()).drop_last();
                        let pred = |x: ActiveBlock| x.piece_index != index;
                        let act = active.filter(pred);
                        assert(w.in_flight == fin);
                        assert(w.active_blocks == act);
                        lemma_swap_remove_pieces(in_flight, slot);
                        assert forall|k: int| 0 <= k < fin.len() implies pending_is_tail(#[trigger] fin[k]) by {
                            assert(fin[k] == in_flight[swap_source(n, slot, k)]);
                        }
                        assert forall|k: int, l: int| 0 <= k < l < fin.len() implies (#[trigger] fin[k]).buffer.piece_index
                            != (#[trigger] fin[l]).buffer.piece_index by {
                            let sk = swap_source(n, slot, k);
                            let sl = swap_source(n, slot, l);
                            assert(fin[k] == in_flight[sk]);
                            assert(fin[l] == in_flight[sl]);
                            if sk < sl {
                                assert(in_flight[sk].buffer.piece_index != in_flight[sl].buffer.piece_index);
                            } else {
                                assert(in_flight[sl].buffer.piece_index != in_flight[sk].buffer.piece_index);
                            }
                        }
                        assert forall|i: int| 0 <= i < act.len() implies covered(fin, #[trigger] act[i]) by {
                            broadcast use vstd::seq_lib::group_filter_ensures;

                            let x = act[i];
                            assert(act.contains(x));
                            active.lemma_filter_contains_rev(pred, x);
                            let j = choose|j: int| 0 <= j < active.len() && active[j] == x;
                            assert(covered(v.in_flight, active[j]));
                            assert(covered(in_flight, x));
                            let k = choose|k: int|
                                0 <= k < in_flight.len() && (#[trigger] in_flight[k]).buffer.piece_index == x.piece_index
                                    && x.index < first_pending(in_flight[k]);
                            assert(pred(x));
                            assert(in_flight[slot].buffer.piece_index == index);
                            assert(k != slot);
                            let t = if k == n - 1 { slot } else { k };
                            assert(fin[t] == in_flight[swap_source(n, slot, t)]);
                            assert(fin[t] == in_flight[k]);
                        }
                        assert forall|i: int, j: int| 0 <= i < j < act.len() implies #[trigger] act[i]
                            != #[trigger] act[j] by {
                            lemma_filter_active_distinct(active, pred, i, j);
                        }
                    } else {
                        assert(w.in_flight == in_flight);
                        assert(w.active_blocks == active);
                    }
                } else {
                    assert(w.in_flight == v.in_flight);
                    assert(w.active_blocks == active);
                }
            }
        }
    }
}

proof fn lemma_slot_from_none(s: Seq<PieceInFlightView>, piece_index: u32, i: int)
    requires
        0 <= i,
        slot_from(s, piece_index, i) is None,
    ensures
        forall|k: int| i <= k < s.len() ==> (#[trigger] s[k]).buffer.piece_index != piece_index,
    decreases s.len() - i,
{
    if i < s.len() {
        lemma_slot_from_none(s, piece_index, i + 1);
    }
}

/// Taking on a piece that is not held yet keeps every request distinct: all
/// of its blocks are still to be asked for, in order.
pub proof fn law_adopting_keeps_requests_distinct(v: RequestView, piece_index: u32, hash: Seq<u8>, piece_length: u64)
    requires
        requests_distinct(v),
        slot_from(v.in_flight, piece_index, 0) is None,
        block_count(piece_length) <= u32::MAX,
    ensures
        requests_distinct(
            RequestView { in_flight: v.in_flight.push(fresh_piece(piece_index, hash, piece_length)), ..v },
        ),
{
    let p = fresh_piece(piece_index, hash, piece_length);
    let w = RequestView { in_flight: v.in_flight.push(p), ..v };
    lemma_slot_from_none(v.in_flight, piece_index, 0);
    assert(first_pending(p) == 0);
    assert(pending_is_tail(p));
    assert forall|k: int| 0 <= k < w.in_flight.len() implies pending_is_tail(#[trigger] w.in_flight[k]) by {
        if k < v.in_flight.len() {
            assert(w.in_flight[k] == v.in_flight[k]);
        }
    }
    assert forall|k: int, l: int| 0 <= k < l < w.in_flight.len() implies (#[trigger] w.in_flight[k]).buffer.piece_index
        != (#[trigger] w.in_flight[l]).buffer.piece_index by {
        assert(w.in_flight[k] == v.in_flight[k]);
        if l < v.in_flight.len() {
            assert(w.in_flight[l] == v.in_flight[l]);
        }
    }
    assert forall|i: int| 0 <= i < w.active_blocks.len() implies covered(w.in_flight, #[trigger] w.active_blocks[i]) by {
        let x = v.active_blocks[i];
        assert(covered(v.in_flight, x));
        let k = choose|k: int|
            0 <= k < v.in_flight.len() && (#[trigger] v.in_flight[k]).buffer.piece_index == x.piece_index && x.index
                < first_pending(v.in_flight[k]);
        assert(w.in_flight[k] == v.in_flight[k]);
    }
}

/// Whatever the peer sends, every request stays distinct.
pub proof fn law_reacting_keeps_requests_distinct(v: RequestView, item: WireItem)
    requires
        requests_distinct(v),
    ensures
        requests_distinct(spec_react(v, item).0),
{
    if let WireItem::Message(m) = item {
        if let MessageView::Piece { index, begin, block } = m@ {
            law_receiving_keeps_requests_distinct(v, index, begin, block);
        }
    }
}

/// One thing a connection does while filling its request window: ask for
/// the next block, or take on a piece the piece manager handed over.
pub enum FillOp {
    Next,
    Adopt { piece_index: u32, hash: Seq<u8>, piece_length: u64 },
}

/// Whether a piece handed over can be taken on: there is room for another
/// piece, this one is not held already, and its blocks can be counted.
pub open spec fn can_adopt(v: RequestView, piece_index: u32, piece_length: u64) -> bool {
    &&& v.in_flight.len() < MAX_PIECES_IN_FLIGHT
    &&& slot_from(v.in_flight, piece_index, 0) is None
    &&& block_count(piece_length) <= u32::MAX
}

/// The state after one step of filling; a piece that cannot be taken on is
/// handed back and changes nothing.
pub open spec fn fill_op(v: RequestView, op: FillOp) -> RequestView {
    match op {
        FillOp::Next => spec_next_request(v).0,
        FillOp::Adopt { piece_index, hash, piece_length } => if can_adopt(v, piece_index, piece_length) {
            RequestView { in_flight: v.in_flight.push(fresh_piece(piece_index, hash, piece_length)), ..v }
        } else {
            v
        },
    }
}

/// The state after a run of filling steps, in order.
pub open spec fn run_fill(v: RequestView, ops: Seq<FillOp>) -> RequestView
    decreases ops.len(),
{
    if ops.len() == 0 {
        v
    } else {
        run_fill(fill_op(v, ops[0]), ops.drop_first())
    }
}

proof fn lemma_next_request_wf(v: RequestView)
    requires
        v.wf(),
    ensures
        spec_next_request(v).0.wf(),
        spec_next_request(v).0.active_blocks.take(v.active_blocks.len() as int) == v.active_blocks,
        spec_next_request(v).0.in_flight.len() == v.in_flight.len(),
        spec_next_request(v).0.peer_choking == v.peer_choking,
        spec_next_request(v).0.am_interested == v.am_interested,
{
    let w = spec_next_request(v).0;
    if !(v.peer_choking || !v.am_interested || v.active_blocks.len() >= MAX_REQUESTS) {
        lemma_pending_from(v.in_flight, 0);
        if let Some(slot) = pending_from(v.in_flight, 0) {
            let p = v.in_flight[slot];
            let p2 = PieceInFlightView { pending: p.pending.drop_first(), ..p };
            assert(w.in_flight == v.in_flight.update(slot, p2));
            assert(p.wf());
            assert(p2.wf()) by {
                assert forall|j: int| 0 <= j < p2.pending.len() implies p2.pending[j] < p2.buffer.have.len() by {
                    assert(p2.pending[j] == p.pending[j + 1]);
                }
            }
            assert forall|i: int| 0 <= i < w.in_flight.len() implies (#[trigger] w.in_flight[i]).wf() by {
                if i != slot {
                    assert(w.in_flight[i] == v.in_flight[i]);
                }
            }
            assert(w.active_blocks.take(v.active_blocks.len() as int) =~= v.active_blocks);
        } else {
            assert(w.active_blocks.take(v.active_blocks.len() as int) =~= v.active_blocks);
        }
    } else {
        assert(w.active_blocks.take(v.active_blocks.len() as int) =~= v.active_blocks);
    }
}

proof fn lemma_fresh_piece_wf(piece_index: u32, hash: Seq<u8>, piece_length: u64)
    requires
        block_count(piece_length) <= u32::MAX,
    ensures
        fresh_piece(piece_index, hash, piece_length).wf(),
{
    let p = fresh_piece(piece_index, hash, piece_length);
    assert(p.buffer.bytes.len() == piece_length);
    assert(p.buffer.have.len() == block_count(p.buffer.bytes.len() as u64));
}

/// However a connection interleaves asking for blocks with taking on pieces
/// it was handed, the window stays within [`MAX_REQUESTS`] and the pieces
/// held within [`MAX_PIECES_IN_FLIGHT`], no block is asked for twice, and
/// the requests already outstanding stay, in order, at the front.
pub proof fn law_filling_keeps_limits_and_distinct_requests(v: RequestView, ops: Seq<FillOp>)
    requires
        v.wf(),
        requests_distinct(v),
    ensures
        run_fill(v, ops).wf(),
        requests_distinct(run_fill(v, ops)),
        run_fill(v, ops).active_blocks.len() <= MAX_REQUESTS,
        run_fill(v, ops).in_flight.len() <= MAX_PIECES_IN_FLIGHT,
        v.active_blocks.len() <= run_fill(v, ops).active_blocks.len(),
        run_fill(v, ops).active_blocks.take(v.active_blocks.len() as int) == v.active_blocks,
    decreases ops.len(),
{
    if ops.len() > 0 {
        let w = fill_op(v, ops[0]);
        match ops[0] {
            FillOp::Next => {
                lemma_next_request_wf(v);
                law_filling_never_repeats_a_request(v);
            },
            FillOp::Adopt { piece_index, hash, piece_length } => {
                if can_adopt(v, piece_index, piece_length) {
                    law_adopting_keeps_requests_distinct(v, piece_index, hash, piece_length);
                    lemma_fresh_piece_wf(piece_index, hash, piece_length);
                    assert forall|i: int| 0 <= i < w.in_flight.len() implies (#[trigger] w.in_flight[i]).wf() by {
                        if i < v.in_flight.len() {
                            assert(w.in_flight[i] == v.in_flight[i]);
                        }
                    }
                }
                assert(w.active_blocks == v.active_blocks);
            },
        }
        assert(w.active_blocks.take(v.active_blocks.len() as int) =~= v.active_blocks);
        law_filling_keeps_limits_and_distinct_requests(w, ops.drop_first());
        let r = run_fill(w, ops.drop_first());
        assert(r.active_blocks.take(v.active_blocks.len() as int) =~= r.active_blocks.take(
            w.active_blocks.len() as int,
        ).take(v.active_blocks.len() as int));
    }
}

/// While the peer chokes us, or we are not interested, filling the window
/// asks for nothing and changes nothing, however often it is tried.
pub proof fn law_nothing_is_asked_while_choked(v: RequestView, ops: Seq<FillOp>)
    requires
        v.peer_choking || !v.am_interested,
        forall|i: int| 0 <= i < ops.len() ==> #[trigger] ops[i] is Next,
    ensures
        spec_next_request(v) == (v, FillStep::Done),
        run_fill(v, ops) == v,
    decreases ops.len(),
{
    if ops.len() > 0 {
        assert(ops[0] is Next);
        assert forall|i: int| 0 <= i < ops.drop_first().len() implies #[trigger] ops.drop_first()[i] is Next by {
            assert(ops.drop_first()[i] == ops[i + 1]);
        }
        law_nothing_is_asked_while_choked(v, ops.drop_first());
    }
}

/// What becomes of a completed piece.
#[derive(Debug)]
pub enum PieceStep {
    /// The block did not complete a piece.
    Nothing,
    /// The piece hashed wrong: hand it back as failed.
    Failed { piece_index: u32 },
    /// The piece hashed right: write it to the store, then report it
    /// verified, or failed if the write does not go through.
    Write { piece_index: u32, bytes: Vec<u8> },
}

/// What a connection does once a block was filed: the bytes it counts as
/// downloaded and as wasted, what becomes of a piece it completed, and
/// whether to top the request window up again.
#[derive(Debug)]
pub struct Settlement {
    pub downloaded: u64,
    pub wasted: u64,
    pub piece: PieceStep,
    pub refill: bool,
}

/// Settles a block receipt. A block not ours to take is wasted and nothing
/// more. A duplicate was downloaded and wasted; a block taken in was
/// downloaded. Each of those asks for more, and a completed piece is written
/// when it hashed right and handed back as failed when it did not.
pub fn settle(receipt: BlockReceipt) -> (r: Settlement)
    ensures
        match receipt@ {
            ReceiptView::Unwanted { len } => r.downloaded == 0 && r.wasted == len && r.piece is Nothing && !r.refill,
            ReceiptView::Duplicate { len } => r.downloaded == len && r.wasted == len && r.piece is Nothing && r.refill,
            ReceiptView::Stored { len } => r.downloaded == len && r.wasted == 0 && r.piece is Nothing && r.refill,
            ReceiptView::Completed { len, piece_index, verified, bytes } => {
                &&& r.downloaded == len
                &&& r.wasted == 0
                &&& r.refill
                &&& verified ==> (r.piece matches PieceStep::Write { piece_index: p, bytes: b } && p == piece_index
                    && b@ == bytes)
                &&& !verified ==> (r.piece matches PieceStep::Failed { piece_index: p } && p == piece_index)
            },
        },
{
    match receipt {
        BlockReceipt::Unwanted { len } => Settlement {
            downloaded: 0,
            wasted: len as u64,
            piece: PieceStep::Nothing,
            refill: false,
        },
        BlockReceipt::Duplicate { len } => Settlement {
            downloaded: len as u64,
            wasted: len as u64,
            piece: PieceStep::Nothing,
            refill: true,
        },
        BlockReceipt::Stored { len } => Settlement {
            downloaded: len as u64,
            wasted: 0,
            piece: PieceStep::Nothing,
            refill: true,
        },
        BlockReceipt::Completed { len, piece_index, verified, bytes } => {
            let piece = if verified {
                PieceStep::Write { piece_index, bytes }
            } else {
                PieceStep::Failed { piece_index }
            };
            Settlement { downloaded: len as u64, wasted: 0, piece, refill: true }
        },
    }
}

/// Anything that changes what a connection has asked for: a step of filling
/// the window, an item from the peer, a change of our interest, or handing
/// every piece back.
pub enum ConnectionOp {
    Fill(FillOp),
    React(WireItem),
    Interest(bool),
    ReleaseAll,
}

/// The state after one such change, as each operation's contract gives it.
pub open spec fn connection_op(v: RequestView, op: ConnectionOp) -> RequestView {
    match op {
        ConnectionOp::Fill(f) => fill_op(v, f),
        ConnectionOp::React(item) => spec_react(v, item).0,
        ConnectionOp::Interest(interested) => RequestView { am_interested: interested, ..v },
        ConnectionOp::ReleaseAll => RequestView { in_flight: Seq::empty(), active_blocks: Seq::empty(), ..v },
    }
}

/// The state after a run of changes, in order.
pub open spec fn run_connection(v: RequestView, ops: Seq<ConnectionOp>) -> RequestView
    decreases ops.len(),
{
    if ops.len() == 0 {
        v
    } else {
        run_connection(connection_op(v, ops[0]), ops.drop_first())
    }
}

/// On a connection that starts with nothing asked for and nothing held, as
/// [`RequestState::new`] makes it, no block is ever outstanding twice and
/// every outstanding request lies in a piece held, whatever the peer sends
/// and however the window is filled.
pub proof fn law_no_block_is_ever_asked_twice(v: RequestView, ops: Seq<ConnectionOp>)
    requires
        v.in_flight.len() == 0,
        v.active_blocks.len() == 0,
    ensures
        requests_distinct(run_connection(v, ops)),
{
    lemma_run_connection_distinct(v, ops);
}

proof fn lemma_run_connection_distinct(v: RequestView, ops: Seq<ConnectionOp>)
    requires
        requests_distinct(v),
    ensures
        requests_distinct(run_connection(v, ops)),
    decreases ops.len(),
{
    if ops.len() > 0 {
        let w = connection_op(v, ops[0]);
        match ops[0] {
            ConnectionOp::Fill(f) => match f {
                FillOp::Next => {
                    law_filling_never_repeats_a_request(v);
                },
                FillOp::Adopt { piece_index, hash, piece_length } => {
                    if can_adopt(v, piece_index, piece_length) {
                        law_adopting_keeps_requests_distinct(v, piece_index, hash, piece_length);
                    }
                },
            },
            ConnectionOp::React(item) => {
                law_reacting_keeps_requests_distinct(v, item);
            },
            ConnectionOp::Interest(_) => {},
            ConnectionOp::ReleaseAll => {},
        }
        lemma_run_connection_distinct(w, ops.drop_first());
    }
}

} // verus!
