use vstd::prelude::*;

use crate::peer::{Peer, PeerAddress};
use crate::status::{DownloadStats, PieceProgress, StatsView};
use crate::wire_protocol::{bit_at, Bitfield};

verus! {

/// The size of one requested block.
pub const BLOCK_SIZE: u64 = 16384;

/// How many connections may assemble the same piece at once, in endgame.
pub const MAX_PIECE_SHARERS: usize = 2;

/// One piece, as the manager sees it.
pub struct Piece {
    pub complete: bool,
    /// Who is assembling this piece: normally one peer, several only in
    /// endgame.
    pub requesters: Vec<Peer>,
}

/// A piece as plain values.
pub struct PieceView {
    pub complete: bool,
    pub requesters: Seq<Peer>,
}

impl View for Piece {
    type V = PieceView;

    open spec fn view(&self) -> PieceView {
        PieceView { complete: self.complete, requesters: self.requesters@ }
    }
}

/// The plain values of a list of pieces.
pub open spec fn pieces_view(v: Seq<Piece>) -> Seq<PieceView> {
    v.map_values(|p: Piece| p@)
}

/// The piece a peer now owns, and everything it needs to fetch and verify it.
#[derive(Debug)]
pub struct Claim {
    pub piece_index: u32,
    /// What this piece must hash to.
    pub hash: [u8; 20],
    /// The piece's own length; the last piece of a torrent is short.
    pub piece_length: u64,
}

/// Something finished, for every connection to hear about.
#[derive(Clone, Copy, Debug)]
pub enum PieceEvent {
    /// A piece passed its hash check, so every peer can be told we have it.
    PieceComplete { piece_index: u32 },
}

/// What a report of a verified piece came to.
#[derive(Debug, PartialEq, Eq, Structural)]
pub enum Verification {
    /// The index names no piece of this torrent; nothing changed.
    UnknownPiece,
    /// The piece was already complete: the report was a second copy.
    Duplicate,
    /// The piece is now recorded as complete. `finished` says whether that
    /// completed the whole torrent, which is when the payload is written out.
    Recorded { finished: bool },
}

/// The addresses of a list of peers, in order.
pub open spec fn addresses(s: Seq<Peer>) -> Seq<PeerAddress> {
    s.map_values(|p: Peer| p.address)
}

/// Whether `peer` is among the requesters of `piece`.
pub open spec fn is_requester(piece: PieceView, peer: Peer) -> bool {
    addresses(piece.requesters).contains(peer.address)
}

/// `s` without every peer at `address`, order kept.
pub open spec fn without(s: Seq<Peer>, address: PeerAddress) -> Seq<Peer> {
    s.filter(|q: Peer| q.address != address)
}

/// Bytes in piece `i`: the nominal piece length, except for the last piece,
/// which holds whatever is left over, and zero past the end.
pub open spec fn spec_piece_size(piece_length: u64, total_length: u64, i: int) -> int {
    let offset = i * piece_length;
    if offset >= total_length {
        0
    } else if total_length - offset < piece_length {
        total_length - offset
    } else {
        piece_length as int
    }
}

/// How many pieces are complete.
pub open spec fn count_complete(s: Seq<PieceView>) -> nat
    decreases s.len(),
{
    if s.len() == 0 {
        0
    } else {
        count_complete(s.drop_last()) + if s.last().complete {
            1nat
        } else {
            0nat
        }
    }
}

/// How many pieces somebody is working.
pub open spec fn count_held(s: Seq<PieceView>) -> nat
    decreases s.len(),
{
    if s.len() == 0 {
        0
    } else {
        count_held(s.drop_last()) + if s.last().requesters.len() > 0 {
            1nat
        } else {
            0nat
        }
    }
}

/// The payload the complete pieces hold.
pub open spec fn complete_bytes(s: Seq<PieceView>, piece_length: u64, total_length: u64) -> nat
    decreases s.len(),
{
    if s.len() == 0 {
        0
    } else {
        complete_bytes(s.drop_last(), piece_length, total_length) + if s.last().complete {
            spec_piece_size(piece_length, total_length, s.len() - 1) as nat
        } else {
            0nat
        }
    }
}

/// A piece nobody is working, that this bitfield can serve.
pub open spec fn is_free_for(s: Seq<PieceView>, bitfield: Seq<u8>, i: int) -> bool {
    0 <= i < s.len() && !s[i].complete && s[i].requesters.len() == 0 && bit_at(bitfield, i)
}

/// Endgame: every piece still needed is spoken for.
pub open spec fn spec_is_endgame(s: Seq<PieceView>) -> bool {
    forall|i: int| 0 <= i < s.len() ==> (s[i].complete || s[i].requesters.len() > 0)
}

/// A piece this peer could take a share of in endgame.
pub open spec fn is_shareable(s: Seq<PieceView>, bitfield: Seq<u8>, peer: Peer, i: int) -> bool {
    &&& 0 <= i < s.len()
    &&& !s[i].complete
    &&& bit_at(bitfield, i)
    &&& !is_requester(s[i], peer)
    &&& s[i].requesters.len() < MAX_PIECE_SHARERS
}

/// `i` is the first piece free for this bitfield.
pub open spec fn is_first_free(s: Seq<PieceView>, bitfield: Seq<u8>, i: int) -> bool {
    is_free_for(s, bitfield, i) && forall|j: int| 0 <= j < i ==> !is_free_for(s, bitfield, j)
}

/// `i` is the first of the least crowded pieces this peer could share.
pub open spec fn is_best_shared(s: Seq<PieceView>, bitfield: Seq<u8>, peer: Peer, i: int) -> bool {
    &&& is_shareable(s, bitfield, peer, i)
    &&& forall|j: int|
        is_shareable(s, bitfield, peer, j) ==> s[i].requesters.len() <= s[j].requesters.len()
    &&& forall|j: int|
        0 <= j < i && is_shareable(s, bitfield, peer, j) ==> s[i].requesters.len()
            < s[j].requesters.len()
}

/// The piece a claim by `peer` with `bitfield` goes to, if any: the first
/// unclaimed piece the bitfield can serve, and only in endgame the first of
/// the least crowded pieces it could share.
pub open spec fn claim_target(s: Seq<PieceView>, bitfield: Seq<u8>, peer: Peer) -> Option<int> {
    if exists|i: int| is_free_for(s, bitfield, i) {
        Some(choose|i: int| is_first_free(s, bitfield, i))
    } else if spec_is_endgame(s) && exists|i: int| is_shareable(s, bitfield, peer, i) {
        Some(choose|i: int| is_best_shared(s, bitfield, peer, i))
    } else {
        None
    }
}

/// The pieces after a claim by `peer`: the claimed piece gains `peer` as a
/// requester; nothing else changes.
pub open spec fn spec_after_claim(s: Seq<PieceView>, bitfield: Seq<u8>, peer: Peer) -> Seq<PieceView> {
    match claim_target(s, bitfield, peer) {
        Some(i) => s.update(
            i,
            PieceView {
                complete: s[i].complete,
                requesters: if is_requester(s[i], peer) {
                    s[i].requesters
                } else {
                    s[i].requesters.push(peer)
                },
            },
        ),
        None => s,
    }
}

/// The pieces after `peer` gives piece `i` back: it stops being a requester
/// of that piece; nothing else changes.
pub open spec fn spec_after_release(s: Seq<PieceView>, i: int, peer: Peer) -> Seq<PieceView> {
    if 0 <= i < s.len() {
        s.update(i, PieceView { complete: s[i].complete, requesters: without(s[i].requesters, peer.address) })
    } else {
        s
    }
}

/// The pieces after `peer` reports piece `i` verified: an incomplete piece
/// becomes complete with nobody working it; a complete one only loses `peer`
/// as a requester.
pub open spec fn spec_after_verified(s: Seq<PieceView>, i: int, peer: Peer) -> Seq<PieceView> {
    if 0 <= i < s.len() {
        if s[i].complete {
            spec_after_release(s, i, peer)
        } else {
            s.update(i, PieceView { complete: true, requesters: Seq::empty() })
        }
    } else {
        s
    }
}

/// Each piece's requesters within the cap, and none on a complete piece.
pub open spec fn requesters_ok(s: Seq<PieceView>) -> bool {
    forall|i: int|
        #![trigger s[i]]
        0 <= i < s.len() ==> (s[i].complete ==> s[i].requesters.len() == 0) && s[i].requesters.len()
            <= MAX_PIECE_SHARERS
}

/// The same pieces, with the same completion.
pub open spec fn same_completion(a: Seq<PieceView>, b: Seq<PieceView>) -> bool {
    a.len() == b.len() && forall|i: int| 0 <= i < a.len() ==> a[i].complete == b[i].complete
}

/// The same pieces, except that piece `i` has `requesters` as requesters.
pub open spec fn with_requesters(a: Seq<PieceView>, b: Seq<PieceView>, i: int, requesters: Seq<Peer>) -> bool {
    &&& same_completion(a, b)
    &&& b[i].requesters == requesters
    &&& forall|j: int| 0 <= j < a.len() && j != i ==> b[j].requesters == a[j].requesters
}

proof fn lemma_counts_update(s: Seq<PieceView>, t: Seq<PieceView>, i: int, piece_length: u64, total_length: u64)
    requires
        0 <= i < s.len(),
        t.len() == s.len(),
        forall|j: int| 0 <= j < s.len() && j != i ==> t[j] == s[j],
    ensures
        count_complete(t) + (if s[i].complete { 1int } else { 0int }) == count_complete(s) + (
        if t[i].complete { 1int } else { 0int }),
        count_held(t) + (if s[i].requesters.len() > 0 { 1int } else { 0int }) == count_held(s) + (
        if t[i].requesters.len() > 0 { 1int } else { 0int }),
        complete_bytes(t, piece_length, total_length) + (if s[i].complete {
            spec_piece_size(piece_length, total_length, i)
        } else {
            0int
        }) == complete_bytes(s, piece_length, total_length) + (if t[i].complete {
            spec_piece_size(piece_length, total_length, i)
        } else {
            0int
        }),
    decreases s.len(),
{
    if i < s.len() - 1 {
        lemma_counts_update(s.drop_last(), t.drop_last(), i, piece_length, total_length);
    } else {
        assert(s.drop_last() =~= t.drop_last());
    }
}

proof fn lemma_counts_bounded(s: Seq<PieceView>, piece_length: u64, total_length: u64)
    ensures
        count_complete(s) <= s.len(),
        count_held(s) <= s.len(),
        complete_bytes(s, piece_length, total_length) <= (if s.len() * piece_length
            <= total_length {
            s.len() * piece_length
        } else {
            total_length as int
        }),
    decreases s.len(),
{
    if s.len() > 0 {
        let k = s.len() - 1;
        lemma_counts_bounded(s.drop_last(), piece_length, total_length);
        assert(s.len() * piece_length == k * piece_length + piece_length) by (nonlinear_arith)
            requires
                k == s.len() - 1,
        ;
        assert(k * piece_length >= 0) by (nonlinear_arith)
            requires
                k >= 0,
        ;
    }
}

proof fn lemma_first_free_unique(s: Seq<PieceView>, bitfield: Seq<u8>, peer: Peer, i: int)
    requires
        is_first_free(s, bitfield, i),
    ensures
        claim_target(s, bitfield, peer) == Some(i),
{
    assert(exists|j: int| is_free_for(s, bitfield, j));
    let c = choose|j: int| is_first_free(s, bitfield, j);
    assert(is_first_free(s, bitfield, c));
    if c < i {
        assert(!is_free_for(s, bitfield, c));
    }
    if i < c {
        assert(!is_free_for(s, bitfield, i));
    }
}

proof fn lemma_best_shared_unique(s: Seq<PieceView>, bitfield: Seq<u8>, peer: Peer, i: int)
    requires
        !exists|j: int| is_free_for(s, bitfield, j),
        spec_is_endgame(s),
        is_best_shared(s, bitfield, peer, i),
    ensures
        claim_target(s, bitfield, peer) == Some(i),
{
    assert(exists|j: int| is_shareable(s, bitfield, peer, j));
    let c = choose|j: int| is_best_shared(s, bitfield, peer, j);
    assert(is_best_shared(s, bitfield, peer, c));
    if c < i {
        assert(is_shareable(s, bitfield, peer, c));
    }
    if i < c {
        assert(is_shareable(s, bitfield, peer, i));
    }
}

proof fn lemma_no_requesters_none_held(s: Seq<PieceView>)
    requires
        forall|j: int| 0 <= j < s.len() ==> s[j].requesters.len() == 0,
    ensures
        count_held(s) == 0,
        requesters_ok(s),
    decreases s.len(),
{
    if s.len() > 0 {
        lemma_no_requesters_none_held(s.drop_last());
    }
}

proof fn false_to_none(s: Seq<PieceView>, bitfield: Seq<u8>)
    requires
        forall|j: int| 0 <= j < s.len() ==> !is_free_for(s, bitfield, j),
    ensures
        !exists|i: int| is_free_for(s, bitfield, i),
{
}

/// Copies the 20 bytes at `start` out of `bytes`.
fn hash_at(bytes: &[u8], start: usize) -> (h: [u8; 20])
    requires
        start + 20 <= bytes.len(),
    ensures
        h@ == bytes@.subrange(start as int, start + 20),
{
    let mut h = [0u8; 20];
    let mut k: usize = 0;
    while k < 20
        invariant
            k <= 20,
            start + 20 <= bytes.len(),
            h@.len() == 20,
            forall|j: int| 0 <= j < k ==> h@[j] == bytes@[start + j],
        decreases 20 - k,
    {
        h[k] = bytes[start + k];
        k = k + 1;
    }
    assert(h@ =~= bytes@.subrange(start as int, start + 20));
    h
}

/// Removes every requester at `address`, keeping the order of the rest.
fn remove_requester(requesters: &Vec<Peer>, address: PeerAddress) -> (r: Vec<Peer>)
    ensures
        r@ == without(requesters@, address),
{
    let mut r: Vec<Peer> = Vec::new();
    let mut k: usize = 0;
    while k < requesters.len()
        invariant
            k <= requesters@.len(),
            r@ == without(requesters@.take(k as int), address),
        decreases requesters@.len() - k,
    {
        proof {
            let pred = |q: Peer| q.address != address;
            assert(requesters@.take(k + 1) =~= requesters@.take(k as int).push(requesters@[k as int]));
            requesters@.take(k as int).lemma_filter_push(requesters@[k as int], pred);
        }
        if requesters[k].address != address {
            r.push(requesters[k]);
        }
        k = k + 1;
    }
    assert(requesters@.take(requesters@.len() as int) =~= requesters@);
    r
}

/// Whether any requester is at `address`.
fn has_requester(requesters: &Vec<Peer>, address: PeerAddress) -> (r: bool)
    ensures
        r == addresses(requesters@).contains(address),
{
    let mut k: usize = 0;
    while k < requesters.len()
        invariant
            k <= requesters@.len(),
            forall|j: int| 0 <= j < k ==> requesters@[j].address != address,
        decreases requesters@.len() - k,
    {
        if requesters[k].address == address {
            assert(addresses(requesters@)[k as int] == address);
            return true;
        }
        k = k + 1;
    }
    proof {
        if addresses(requesters@).contains(address) {
            let j = choose|j: int| 0 <= j < addresses(requesters@).len() && addresses(requesters@)[j] == address;
            assert(requesters@[j].address == address);
        }
    }
    false
}

proof fn lemma_without_facts(s: Seq<Peer>, address: PeerAddress)
    ensures
        without(s, address).len() <= s.len(),
        !addresses(without(s, address)).contains(address),
        addresses(s).contains(address) ==> without(s, address).len() < s.len(),
        !addresses(s).contains(address) ==> without(s, address) == s,
        forall|q: Peer| #![trigger addresses(s).contains(q.address)]
            q.address != address && addresses(s).contains(q.address) ==> addresses(without(s, address)).contains(q.address),
    decreases s.len(),
{
    let pred = |q: Peer| q.address != address;
    if s.len() > 0 {
        let d = s.drop_last();
        let l = s.last();
        lemma_without_facts(d, address);
        assert(s =~= d.push(l));
        d.lemma_filter_push(l, pred);
        assert(addresses(s) =~= addresses(d).push(l.address));
        let w = without(d, address);
        assert(addresses(w.push(l)) =~= addresses(w).push(l.address));
        if addresses(d).contains(address) {
            let j = choose|j: int| 0 <= j < addresses(d).len() && addresses(d)[j] == address;
            assert(addresses(s)[j] == address);
        }
        if l.address == address {
            assert(addresses(s)[s.len() - 1] == address);
        }
        assert forall|q: Peer| #![trigger addresses(s).contains(q.address)]
            q.address != address && addresses(s).contains(q.address) implies addresses(without(s, address)).contains(q.address) by {
            let j = choose|j: int| 0 <= j < addresses(s).len() && addresses(s)[j] == q.address;
            if j < s.len() - 1 {
                assert(addresses(d)[j] == q.address);
                assert(addresses(d).contains(q.address));
                let k = choose|k: int| 0 <= k < addresses(w).len() && addresses(w)[k] == q.address;
                if l.address != address {
                    assert(addresses(w.push(l))[k] == q.address);
                }
            } else {
                assert(addresses(w.push(l))[w.len() as int] == q.address);
            }
        }
        if !addresses(s).contains(address) {
            assert(without(s, address) =~= s);
        }
    } else {
        assert(without(s, address) =~= s);
    }
}

/// Decides who downloads what: hands a peer a whole piece and registers the
/// claim in one step, and keeps the bitfield and the totals.
pub struct PieceManager {
    pub piece_length: u64,
    pub total_length: u64,
    pub pieces: Vec<Piece>,
    /// One hash per piece, in index order.
    pub hashes: Vec<[u8; 20]>,
    pub stats: DownloadStats,
    /// Set once the payload has been written out of the store.
    pub extracted: bool,
    /// Kept in step with `pieces`: one bit per piece, set when complete.
    pub bitfield: Bitfield,
    /// Running totals over the complete pieces.
    pub completed_pieces: u32,
    pub verified_bytes: u64,
    pub info_hash: [u8; 20],
}

impl PieceManager {
    /// The manager's internal consistency: the bitfield and the running totals
    /// agree with the pieces, a complete piece has nobody working it, no piece
    /// has more than [`MAX_PIECE_SHARERS`] requesters, and the in-flight count
    /// is the number of pieces somebody is working.
    pub open spec fn wf(&self) -> bool {
        let n = self.pieces@.len();
        &&& n == self.hashes@.len()
        &&& n <= u32::MAX
        &&& self.bitfield@.len() == (n + 7) / 8
        &&& forall|i: int| 0 <= i < n ==> bit_at(self.bitfield@, i) == self.spec_pieces()[i].complete
        &&& requesters_ok(self.spec_pieces())
        &&& self.completed_pieces == count_complete(self.spec_pieces())
        &&& self.verified_bytes == complete_bytes(self.spec_pieces(), self.piece_length, self.total_length)
        &&& self.stats@.in_flight_pieces == count_held(self.spec_pieces())
    }

    /// The pieces, as plain values.
    pub open spec fn spec_pieces(&self) -> Seq<PieceView> {
        pieces_view(self.pieces@)
    }

    /// The hash piece `i` must have.
    pub open spec fn spec_hash(&self, i: int) -> [u8; 20] {
        self.hashes@[i]
    }

    /// Whether the payload has been written out.
    pub open spec fn spec_extracted(&self) -> bool {
        self.extracted
    }

    /// The torrent this manager is for.
    pub open spec fn spec_info_hash(&self) -> [u8; 20] {
        self.info_hash
    }

    /// The size of piece `i` of this torrent.
    pub open spec fn spec_size(&self, i: int) -> int {
        spec_piece_size(self.piece_length, self.total_length, i)
    }

    /// One piece per whole 20-byte hash; a ragged tail is dropped.
    /// Whether a torrent's piece hashes can be counted: one per 20 bytes, no
    /// more than a `u32` holds.
    pub fn piece_count_fits(piece_hashes: &[u8]) -> (r: bool)
        ensures
            r == (piece_hashes@.len() / 20 <= u32::MAX),
    {
        piece_hashes.len() / 20 <= u32::MAX as usize
    }

    pub fn new(piece_hashes: &[u8], piece_length: u64, total_length: u64, info_hash: [u8; 20]) -> (m: Self)
        requires
            piece_hashes@.len() / 20 <= u32::MAX,
        ensures
            m.wf(),
            m.piece_length == piece_length,
            m.total_length == total_length,
            m.spec_pieces().len() == piece_hashes@.len() / 20,
            forall|i: int|
                0 <= i < m.spec_pieces().len() ==> !m.spec_pieces()[i].complete && m.spec_pieces()[i].requesters.len() == 0,
            forall|i: int|
                0 <= i < m.spec_pieces().len() ==> m.spec_hash(i)@ == piece_hashes@.subrange(20 * i, 20 * i + 20),
            m.stats@.all_zero(),
            !m.spec_extracted(),
            m.spec_info_hash() == info_hash,
    {
        let count = piece_hashes.len() / 20;
        let mut hashes: Vec<[u8; 20]> = Vec::new();
        let mut pieces: Vec<Piece> = Vec::new();
        let mut i: usize = 0;
        while i < count
            invariant
                count == piece_hashes@.len() / 20,
                piece_hashes@.len() == piece_hashes.len(),
                i <= count,
                hashes@.len() == i,
                pieces@.len() == i,
                forall|j: int| 0 <= j < i ==> hashes@[j]@ == piece_hashes@.subrange(20 * j, 20 * j + 20),
                forall|j: int| 0 <= j < i ==> !pieces@[j].complete && pieces@[j].requesters@.len() == 0,
                count_complete(pieces_view(pieces@)) == 0,
                count_held(pieces_view(pieces@)) == 0,
                complete_bytes(pieces_view(pieces@), piece_length, total_length) == 0,
            decreases count - i,
        {
            assert(i * 20 + 20 <= piece_hashes@.len()) by (nonlinear_arith)
                requires
                    i < count,
                    count == piece_hashes@.len() / 20,
            ;
            hashes.push(hash_at(piece_hashes, i * 20));
            let ghost before = pieces@;
            pieces.push(Piece { complete: false, requesters: Vec::new() });
            assert(pieces_view(pieces@).drop_last() =~= pieces_view(before));
            i = i + 1;
        }
        let mut bits: Vec<u8> = Vec::new();
        let byte_count = count / 8 + if count % 8 == 0 { 0 } else { 1 };
        let mut k: usize = 0;
        while k < byte_count
            invariant
                k <= byte_count,
                bits@.len() == k,
                forall|j: int| 0 <= j < k ==> bits@[j] == 0u8,
            decreases byte_count - k,
        {
            bits.push(0u8);
            k = k + 1;
        }
        proof {
            assert forall|j: int| 0 <= j < count implies bit_at(bits@, j) == false by {
                assert(bits@[j / 8] == 0u8);
                let sh = (7 - j % 8) as u8;
                assert((0u8 >> sh) & 1u8 == 0u8) by (bit_vector);
            }
        }
        PieceManager {
            piece_length,
            total_length,
            pieces,
            hashes,
            stats: DownloadStats::new(),
            extracted: false,
            bitfield: Bitfield(bits),
            completed_pieces: 0,
            verified_bytes: 0,
            info_hash,
        }
    }

    /// Bytes in `piece_index`: every piece is the nominal length except the
    /// last, which is whatever is left over.
    pub fn piece_size(&self, piece_index: u32) -> (r: u64)
        ensures
            r == self.spec_size(piece_index as int),
            r == spec_piece_size(self.piece_length, self.total_length, piece_index as int),
    {
        assert((piece_index as int) * (self.piece_length as int) <= u128::MAX) by (nonlinear_arith)
            requires
                piece_index <= u32::MAX,
                self.piece_length <= u64::MAX,
        ;
        let offset: u128 = (piece_index as u128) * (self.piece_length as u128);
        if offset >= self.total_length as u128 {
            0
        } else {
            let rest = self.total_length - (offset as u64);
            if rest < self.piece_length {
                rest
            } else {
                self.piece_length
            }
        }
    }

    /// Whether we hold `piece_index`. An index past the end reads as held, so
    /// nobody is ever asked to serve or fetch it.
    pub fn has_piece(&self, piece_index: u32) -> (r: bool)
        ensures
            r == (piece_index >= self.spec_pieces().len() || self.spec_pieces()[piece_index as int].complete),
    {
        if (piece_index as usize) < self.pieces.len() {
            self.pieces[piece_index as usize].complete
        } else {
            true
        }
    }

    pub fn total_pieces(&self) -> (r: u32)
        requires
            self.wf(),
        ensures
            r == self.spec_pieces().len(),
    {
        self.pieces.len() as u32
    }

    /// Whether every piece is complete.
    pub fn is_completed(&self) -> (r: bool)
        requires
            self.wf(),
        ensures
            r == (count_complete(self.spec_pieces()) == self.spec_pieces().len()),
    {
        self.completed_pieces == self.pieces.len() as u32
    }

    pub fn completed_pieces(&self) -> (r: u32)
        requires
            self.wf(),
        ensures
            r == count_complete(self.spec_pieces()),
    {
        self.completed_pieces
    }

    pub fn verified_bytes(&self) -> (r: u64)
        requires
            self.wf(),
        ensures
            r == complete_bytes(self.spec_pieces(), self.piece_length, self.total_length),
    {
        self.verified_bytes
    }

    pub fn extracted(&self) -> (r: bool)
        ensures
            r == self.spec_extracted(),
    {
        self.extracted
    }

    /// What we hold, one bit per piece.
    pub fn bitfield(&self) -> (r: &Bitfield)
        requires
            self.wf(),
        ensures
            r@.len() == (self.spec_pieces().len() + 7) / 8,
            forall|i: int| 0 <= i < self.spec_pieces().len() ==> bit_at(r@, i) == self.spec_pieces()[i].complete,
    {
        &self.bitfield
    }

    /// The coherent view of what we hold, for everyone watching.
    pub fn progress(&self) -> (p: PieceProgress)
        requires
            self.wf(),
        ensures
            p.completed_pieces == count_complete(self.spec_pieces()),
            p.total_pieces == self.spec_pieces().len(),
            p.verified_bytes == complete_bytes(self.spec_pieces(), self.piece_length, self.total_length),
            p.total_bytes == self.total_length,
            p.bitfield@ == self.bitfield@,
            p.extracted == self.spec_extracted(),
    {
        PieceProgress {
            completed_pieces: self.completed_pieces,
            total_pieces: self.pieces.len() as u32,
            verified_bytes: self.verified_bytes,
            total_bytes: self.total_length,
            bitfield: self.bitfield.clone(),
            extracted: self.extracted,
        }
    }

    /// The fields no operation changes.
    pub open spec fn same_frame(&self, other: &Self) -> bool {
        &&& self.piece_length == other.piece_length
        &&& self.total_length == other.total_length
        &&& self.hashes@ == other.hashes@
        &&& self.extracted == other.extracted
        &&& self.info_hash == other.info_hash
    }

    /// Rebuilds the bitfield and the running totals from the pieces.
    fn reseed_cached_views(&mut self)
        requires
            old(self).pieces@.len() == old(self).hashes@.len(),
            old(self).pieces@.len() <= u32::MAX,
            requesters_ok(old(self).spec_pieces()),
            old(self).stats@.in_flight_pieces == count_held(old(self).spec_pieces()),
        ensures
            final(self).wf(),
            final(self).spec_pieces() == old(self).spec_pieces(),
            final(self).stats@ == old(self).stats@,
            final(self).same_frame(old(self)),
    {
        let n = self.pieces.len();
        let byte_count = n / 8 + if n % 8 == 0 { 0 } else { 1 };
        let mut bits: Vec<u8> = Vec::new();
        let mut k: usize = 0;
        while k < byte_count
            invariant
                k <= byte_count,
                bits@.len() == k,
                forall|j: int| 0 <= j < k ==> bits@[j] == 0u8,
            decreases byte_count - k,
        {
            bits.push(0u8);
            k = k + 1;
        }
        let mut bitfield = Bitfield(bits);
        proof {
            assert forall|j: int| 0 <= j < n implies bit_at(bitfield@, j) == false by {
                assert(bitfield@[j / 8] == 0u8);
                let sh = (7 - j % 8) as u8;
                assert((0u8 >> sh) & 1u8 == 0u8) by (bit_vector);
            }
        }
        let mut completed: u32 = 0;
        let mut verified: u64 = 0;
        let mut i: usize = 0;
        while i < n
            invariant
                n == self.pieces@.len(),
                n <= u32::MAX,
                i <= n,
                bitfield@.len() == (n + 7) / 8,
                forall|j: int| 0 <= j < i ==> bit_at(bitfield@, j) == self.spec_pieces()[j].complete,
                forall|j: int| i <= j < n ==> !bit_at(bitfield@, j),
                completed == count_complete(self.spec_pieces().take(i as int)),
                verified == complete_bytes(self.spec_pieces().take(i as int), self.piece_length, self.total_length),
            decreases n - i,
        {
            let ghost pre = self.spec_pieces().take(i as int);
            let ghost post = self.spec_pieces().take(i + 1);
            assert(post.drop_last() =~= pre);
            proof {
                lemma_counts_bounded(post, self.piece_length, self.total_length);
                assert((i + 1) * self.piece_length >= 0) by (nonlinear_arith);
            }
            if self.pieces[i].complete {
                bitfield.set_piece(i as u32, true);
                completed = completed + 1;
                let size = self.piece_size(i as u32);
                verified = verified + size;
            }
            i = i + 1;
        }
        assert(self.spec_pieces().take(n as int) =~= self.spec_pieces());
        self.bitfield = bitfield;
        self.completed_pieces = completed;
        self.verified_bytes = verified;
    }

    /// Takes on whatever the store was found to hold. Resumed pieces go to
    /// the resumed counters, not to this session's verified ones. Called once,
    /// before anything is claimed.
    pub fn adopt_stored(&mut self, stored: Option<Bitfield>)
        requires
            old(self).wf(),
            forall|i: int| 0 <= i < old(self).pieces@.len() ==> old(self).spec_pieces()[i].requesters.len() == 0,
        ensures
            final(self).wf(),
            final(self).same_frame(old(self)),
            final(self).pieces@.len() == old(self).pieces@.len(),
            forall|i: int|
                0 <= i < final(self).pieces@.len() ==> final(self).spec_pieces()[i].complete == match stored {
                    Some(b) => bit_at(b@, i),
                    None => old(self).spec_pieces()[i].complete,
                },
            forall|i: int|
                0 <= i < final(self).pieces@.len() ==> final(self).spec_pieces()[i].requesters.len() == 0,
            final(self).stats@ == (StatsView {
                total_pieces: old(self).pieces@.len() as u32,
                total_bytes: old(self).total_length,
                resumed_pieces: count_complete(final(self).spec_pieces()) as u32,
                resumed_bytes: complete_bytes(final(self).spec_pieces(), old(self).piece_length, old(self).total_length) as u64,
                ..old(self).stats@
            }),
    {
        let n = self.pieces.len();
        match &stored {
            Some(b) => {
                let mut i: usize = 0;
                while i < n
                    invariant
                        n == self.pieces@.len(),
                        n == old(self).pieces@.len(),
                        i <= n,
                        n <= u32::MAX,
                        forall|j: int| 0 <= j < i ==> self.spec_pieces()[j].complete == bit_at(b@, j),
                        forall|j: int| 0 <= j < n ==> self.spec_pieces()[j].requesters.len() == 0,
                        forall|j: int| i <= j < n ==> self.spec_pieces()[j] == old(self).spec_pieces()[j],
                        forall|j: int| 0 <= j < n ==> old(self).spec_pieces()[j].requesters.len() == 0,
                        self.same_frame(old(self)),
                        self.stats@ == old(self).stats@,
                    decreases n - i,
                {
                    let has = b.has_piece(i as u32);
                    let ghost before = self.spec_pieces();
                    self.pieces[i].complete = has;
                    assert(self.spec_pieces() =~= before.update(
                        i as int,
                        PieceView { complete: has, requesters: before[i as int].requesters },
                    ));
                    i = i + 1;
                }
            },
            None => {},
        }
        proof {
            lemma_no_requesters_none_held(self.spec_pieces());
            lemma_no_requesters_none_held(old(self).spec_pieces());
        }
        self.reseed_cached_views();
        let total = self.pieces.len() as u32;
        self.stats.set_totals(total, self.total_length);
        let completed = self.completed_pieces;
        let verified = self.verified_bytes;
        self.stats.set_resumed(completed, verified);
    }

    /// Whether the peer holds anything we still need.
    pub fn is_interesting(&self, bitfield: &Bitfield) -> (r: bool)
        requires
            self.wf(),
        ensures
            r == exists|i: int| 0 <= i < self.pieces@.len() && !self.spec_pieces()[i].complete && bit_at(bitfield@, i),
    {
        let n = self.pieces.len();
        let mut i: usize = 0;
        while i < n
            invariant
                n == self.pieces@.len(),
                n <= u32::MAX,
                i <= n,
                forall|j: int| 0 <= j < i ==> !(!self.spec_pieces()[j].complete && bit_at(bitfield@, j)),
            decreases n - i,
        {
            if !self.pieces[i].complete && bitfield.has_piece(i as u32) {
                assert(!self.spec_pieces()[i as int].complete && bit_at(bitfield@, i as int));
                return true;
            }
            i = i + 1;
        }
        false
    }

    /// First piece this bitfield can serve that no peer holds.
    fn select_piece(&self, bitfield: &Bitfield) -> (r: Option<u32>)
        requires
            self.pieces@.len() <= u32::MAX,
        ensures
            match r {
                Some(i) => is_first_free(self.spec_pieces(), bitfield@, i as int),
                None => !exists|i: int| is_free_for(self.spec_pieces(), bitfield@, i),
            },
    {
        let n = self.pieces.len();
        let mut i: usize = 0;
        while i < n
            invariant
                n == self.pieces@.len(),
                n <= u32::MAX,
                i <= n,
                forall|j: int| 0 <= j < i ==> !is_free_for(self.spec_pieces(), bitfield@, j),
            decreases n - i,
        {
            if !self.pieces[i].complete && self.pieces[i].requesters.len() == 0 && bitfield.has_piece(i as u32) {
                return Some(i as u32);
            }
            i = i + 1;
        }
        proof { false_to_none(self.spec_pieces(), bitfield@); }
        None
    }

    /// Whether every piece still needed is spoken for.
    pub fn is_endgame(&self) -> (r: bool)
        ensures
            r == spec_is_endgame(self.spec_pieces()),
    {
        let n = self.pieces.len();
        let mut i: usize = 0;
        while i < n
            invariant
                n == self.pieces@.len(),
                i <= n,
                forall|j: int| 0 <= j < i ==> (self.spec_pieces()[j].complete || self.spec_pieces()[j].requesters.len() > 0),
            decreases n - i,
        {
            if !self.pieces[i].complete && self.pieces[i].requesters.len() == 0 {
                assert(!(self.spec_pieces()[i as int].complete || self.spec_pieces()[i as int].requesters.len() > 0));
                return false;
            }
            i = i + 1;
        }
        true
    }

    /// The least crowded piece this bitfield can serve that `peer` is not
    /// already working, the first of them on a tie.
    fn select_shared_piece(&self, bitfield: &Bitfield, peer: &Peer) -> (r: Option<u32>)
        requires
            self.pieces@.len() <= u32::MAX,
        ensures
            match r {
                Some(i) => is_best_shared(self.spec_pieces(), bitfield@, *peer, i as int),
                None => !exists|i: int| is_shareable(self.spec_pieces(), bitfield@, *peer, i),
            },
    {
        let n = self.pieces.len();
        let mut best: Option<u32> = None;
        let mut best_len: usize = 0;
        let mut i: usize = 0;
        while i < n
            invariant
                n == self.pieces@.len(),
                n <= u32::MAX,
                i <= n,
                match best {
                    Some(b) => {
                        &&& b < i
                        &&& is_shareable(self.spec_pieces(), bitfield@, *peer, b as int)
                        &&& best_len == self.spec_pieces()[b as int].requesters.len()
                        &&& forall|j: int| 0 <= j < i && is_shareable(self.spec_pieces(), bitfield@, *peer, j)
                            ==> best_len <= self.spec_pieces()[j].requesters.len()
                        &&& forall|j: int| 0 <= j < b && is_shareable(self.spec_pieces(), bitfield@, *peer, j)
                            ==> best_len < self.spec_pieces()[j].requesters.len()
                    },
                    None => forall|j: int| 0 <= j < i ==> !is_shareable(self.spec_pieces(), bitfield@, *peer, j),
                },
            decreases n - i,
        {
            let len = self.pieces[i].requesters.len();
            if !self.pieces[i].complete && bitfield.has_piece(i as u32)
                && !has_requester(&self.pieces[i].requesters, peer.address)
                && len < MAX_PIECE_SHARERS {
                let better = match best {
                    Some(_) => len < best_len,
                    None => true,
                };
                if better {
                    best = Some(i as u32);
                    best_len = len;
                }
            }
            i = i + 1;
        }
        best
    }

    /// Takes a piece for `peer`: an unclaimed one first, and only once nothing
    /// is unclaimed anywhere, one somebody else is already working (up to
    /// [`MAX_PIECE_SHARERS`] at once). Choosing and registering happen in one
    /// step, so two peers cannot take the same work in between.
    pub fn claim_piece(&mut self, bitfield: &Bitfield, peer: Peer) -> (r: Option<Claim>)
        requires
            old(self).wf(),
        ensures
            final(self).wf(),
            final(self).same_frame(old(self)),
            final(self).spec_pieces() == spec_after_claim(old(self).spec_pieces(), bitfield@, peer),
            match claim_target(old(self).spec_pieces(), bitfield@, peer) {
                Some(i) => {
                    &&& r matches Some(c)
                    &&& c.piece_index == i
                    &&& c.hash == old(self).hashes@[i]
                    &&& c.piece_length == spec_piece_size(old(self).piece_length, old(self).total_length, i)
                    &&& final(self).stats@ == if old(self).spec_pieces()[i].requesters.len() == 0 {
                        StatsView { in_flight_pieces: (old(self).stats@.in_flight_pieces + 1) as u32, ..old(self).stats@ }
                    } else {
                        old(self).stats@
                    }
                },
                None => r is None && final(self).stats@ == old(self).stats@,
            },
    {
        let ghost s = old(self).spec_pieces();
        let index = match self.select_piece(bitfield) {
            Some(i) => {
                proof { lemma_first_free_unique(s, bitfield@, peer, i as int); }
                i
            },
            None => {
                if self.is_endgame() {
                    match self.select_shared_piece(bitfield, &peer) {
                        Some(i) => {
                            proof { lemma_best_shared_unique(s, bitfield@, peer, i as int); }
                            i
                        },
                        None => return None,
                    }
                } else {
                    return None;
                }
            },
        };
        let piece_length = self.piece_size(index);
        let idx = index as usize;
        let was_empty = self.pieces[idx].requesters.len() == 0;
        let holds = has_requester(&self.pieces[idx].requesters, peer.address);
        assert(!holds);
        proof {
            let t = s.update(idx as int, PieceView { complete: s[idx as int].complete, requesters: s[idx as int].requesters.push(peer) });
            lemma_counts_update(s, t, idx as int, self.piece_length, self.total_length);
            lemma_counts_bounded(t, self.piece_length, self.total_length);
        }
        if was_empty {
            self.stats.piece_claimed();
        }
        let ghost before = self.spec_pieces();
        self.pieces[idx].requesters.push(peer);
        assert(self.spec_pieces() =~= before.update(
            idx as int,
            PieceView { complete: before[idx as int].complete, requesters: before[idx as int].requesters.push(peer) },
        ));
        Some(Claim { piece_index: index, hash: self.hashes[idx], piece_length })
    }

    /// Gives piece `piece_index` back on behalf of `peer`, without finishing
    /// it. The piece stays claimed while anybody else is still working it.
    pub fn release(&mut self, piece_index: u32, peer: Peer)
        requires
            old(self).wf(),
        ensures
            final(self).wf(),
            final(self).same_frame(old(self)),
            final(self).spec_pieces() == spec_after_release(old(self).spec_pieces(), piece_index as int, peer),
            final(self).stats@ == if piece_index < old(self).pieces@.len()
                && old(self).spec_pieces()[piece_index as int].requesters.len() > 0
                && without(old(self).spec_pieces()[piece_index as int].requesters, peer.address).len() == 0 {
                StatsView { in_flight_pieces: (old(self).stats@.in_flight_pieces - 1) as u32, ..old(self).stats@ }
            } else {
                old(self).stats@
            },
    {
        let idx = piece_index as usize;
        if idx >= self.pieces.len() {
            return;
        }
        let ghost s = self.spec_pieces();
        let was_held = self.pieces[idx].requesters.len() > 0;
        let remaining = remove_requester(&self.pieces[idx].requesters, peer.address);
        let now_empty = remaining.len() == 0;
        proof {
            lemma_without_facts(s[idx as int].requesters, peer.address);
            let t = s.update(idx as int, PieceView { complete: s[idx as int].complete, requesters: remaining@ });
            lemma_counts_update(s, t, idx as int, self.piece_length, self.total_length);
        }
        self.pieces[idx].requesters = remaining;
        assert(self.spec_pieces() =~= spec_after_release(s, idx as int, peer));
        if was_held && now_empty {
            self.stats.piece_released();
        }
    }

    /// A connection verified piece `piece_index` and wrote it. Idempotent: in
    /// endgame two connections can finish the same piece, and the second
    /// report only counts its bytes as wasted.
    pub fn piece_verified(&mut self, piece_index: u32, peer: Peer) -> (r: Verification)
        requires
            old(self).wf(),
        ensures
            final(self).wf(),
            final(self).same_frame(old(self)),
            final(self).spec_pieces() == spec_after_verified(old(self).spec_pieces(), piece_index as int, peer),
            piece_index >= old(self).pieces@.len() ==> r == Verification::UnknownPiece && final(self).stats@
                == old(self).stats@,
            piece_index < old(self).pieces@.len() && old(self).spec_pieces()[piece_index as int].complete ==> {
                &&& r == Verification::Duplicate
                &&& final(self).stats@ == (StatsView {
                    wasted_bytes: old(self).stats@.wasted_bytes.wrapping_add(
                        spec_piece_size(old(self).piece_length, old(self).total_length, piece_index as int) as u64,
                    ),
                    ..old(self).stats@
                })
            },
            piece_index < old(self).pieces@.len() && !old(self).spec_pieces()[piece_index as int].complete ==> {
                let size = spec_piece_size(old(self).piece_length, old(self).total_length, piece_index as int) as u64;
                let held = old(self).spec_pieces()[piece_index as int].requesters.len() > 0;
                &&& r == Verification::Recorded {
                    finished: count_complete(final(self).spec_pieces()) == final(self).pieces@.len(),
                }
                &&& final(self).stats@ == (StatsView {
                    in_flight_pieces: if held {
                        (old(self).stats@.in_flight_pieces - 1) as u32
                    } else {
                        old(self).stats@.in_flight_pieces
                    },
                    verified_bytes: old(self).stats@.verified_bytes.wrapping_add(size),
                    completed_pieces: old(self).stats@.completed_pieces.wrapping_add(1),
                    ..old(self).stats@
                })
            },
    {
        let piece_length = self.piece_size(piece_index);
        let idx = piece_index as usize;
        if idx >= self.pieces.len() {
            return Verification::UnknownPiece;
        }
        let ghost s = self.spec_pieces();
        if self.pieces[idx].complete {
            let remaining = remove_requester(&self.pieces[idx].requesters, peer.address);
            proof {
                lemma_without_facts(s[idx as int].requesters, peer.address);
            }
            self.pieces[idx].requesters = remaining;
            assert(self.spec_pieces() =~= s);
            assert(self.spec_pieces() =~= spec_after_verified(s, idx as int, peer));
            self.stats.add_wasted(piece_length);
            return Verification::Duplicate;
        }
        let was_held = self.pieces[idx].requesters.len() > 0;
        let ghost t = s.update(idx as int, PieceView { complete: true, requesters: Seq::empty() });
        proof {
            lemma_counts_update(s, t, idx as int, self.piece_length, self.total_length);
            lemma_counts_bounded(t, self.piece_length, self.total_length);
            assert(t.len() * self.piece_length >= 0) by (nonlinear_arith);
        }
        self.pieces[idx].requesters = Vec::new();
        if was_held {
            self.stats.piece_released();
        }
        self.pieces[idx].complete = true;
        assert(self.spec_pieces() =~= t);
        self.bitfield.set_piece(piece_index, true);
        self.completed_pieces = self.completed_pieces + 1;
        self.verified_bytes = self.verified_bytes + piece_length;
        self.stats.piece_verified(piece_length);
        Verification::Recorded { finished: self.completed_pieces == self.pieces.len() as u32 }
    }

    /// A connection assembled piece `piece_index` and its hash was wrong.
    /// Nothing was written, so `peer` stops working it and the whole piece
    /// counts as wasted.
    pub fn piece_failed(&mut self, piece_index: u32, peer: Peer)
        requires
            old(self).wf(),
        ensures
            final(self).wf(),
            final(self).same_frame(old(self)),
            final(self).spec_pieces() == spec_after_release(old(self).spec_pieces(), piece_index as int, peer),
            final(self).stats@ == (StatsView {
                in_flight_pieces: if piece_index < old(self).pieces@.len()
                    && old(self).spec_pieces()[piece_index as int].requesters.len() > 0
                    && without(old(self).spec_pieces()[piece_index as int].requesters, peer.address).len() == 0 {
                    (old(self).stats@.in_flight_pieces - 1) as u32
                } else {
                    old(self).stats@.in_flight_pieces
                },
                hash_failures: old(self).stats@.hash_failures.wrapping_add(1),
                wasted_bytes: old(self).stats@.wasted_bytes.wrapping_add(
                    spec_piece_size(old(self).piece_length, old(self).total_length, piece_index as int) as u64,
                ),
                ..old(self).stats@
            }),
    {
        let piece_length = self.piece_size(piece_index);
        self.release(piece_index, peer);
        self.stats.piece_failed_hash();
        self.stats.add_wasted(piece_length);
    }

    /// Records how writing the payload out of the store went.
    pub fn extraction_finished(&mut self, succeeded: bool)
        requires
            old(self).wf(),
        ensures
            final(self).wf(),
            final(self).spec_pieces() == old(self).spec_pieces(),
            final(self).stats@ == old(self).stats@,
            final(self).extracted == (old(self).extracted || succeeded),
            final(self).piece_length == old(self).piece_length,
            final(self).total_length == old(self).total_length,
            final(self).hashes@ == old(self).hashes@,
            final(self).info_hash == old(self).info_hash,
    {
        if succeeded {
            self.extracted = true;
        }
    }
}

/// A claim is exclusive until the tail of the download: a piece somebody is
/// already working is only ever handed to a second peer in endgame, when no
/// piece is left that nobody is working.
pub proof fn law_claim_exclusive_until_endgame(s: Seq<PieceView>, bitfield: Seq<u8>, peer: Peer)
    requires
        claim_target(s, bitfield, peer) is Some,
        s[claim_target(s, bitfield, peer)->0].requesters.len() > 0,
    ensures
        spec_is_endgame(s),
{
    if exists|i: int| is_free_for(s, bitfield, i) {
        let i = choose|i: int| is_first_free(s, bitfield, i);
        lemma_first_free_exists(s, bitfield);
    }
}

proof fn lemma_first_free_exists(s: Seq<PieceView>, bitfield: Seq<u8>)
    requires
        exists|i: int| is_free_for(s, bitfield, i),
    ensures
        exists|i: int| is_first_free(s, bitfield, i),
    decreases s.len(),
{
    let w = choose|i: int| is_free_for(s, bitfield, i);
    if exists|j: int| 0 <= j < w && is_free_for(s, bitfield, j) {
        let j = choose|j: int| 0 <= j < w && is_free_for(s, bitfield, j);
        let t = s.take(w);
        assert(is_free_for(t, bitfield, j));
        lemma_first_free_exists(t, bitfield);
        let k = choose|k: int| is_first_free(t, bitfield, k);
        assert(is_first_free(s, bitfield, k)) by {
            assert forall|m: int| 0 <= m < k implies !is_free_for(s, bitfield, m) by {
                assert(!is_free_for(t, bitfield, m));
            }
        }
    } else {
        assert(is_first_free(s, bitfield, w));
    }
}

proof fn lemma_best_shared_exists(s: Seq<PieceView>, bitfield: Seq<u8>, peer: Peer)
    requires
        exists|i: int| is_shareable(s, bitfield, peer, i),
    ensures
        exists|i: int| is_best_shared(s, bitfield, peer, i),
    decreases s.len(),
{
    let n = s.len();
    let last = n - 1;
    let d = s.drop_last();
    if exists|i: int| is_shareable(d, bitfield, peer, i) {
        lemma_best_shared_exists(d, bitfield, peer);
        let b = choose|i: int| is_best_shared(d, bitfield, peer, i);
        assert(is_shareable(s, bitfield, peer, b));
        if is_shareable(s, bitfield, peer, last) && s[last].requesters.len() < s[b].requesters.len() {
            assert(is_best_shared(s, bitfield, peer, last)) by {
                assert forall|j: int| is_shareable(s, bitfield, peer, j) implies s[last].requesters.len()
                    <= s[j].requesters.len() by {
                    if j < last {
                        assert(is_shareable(d, bitfield, peer, j));
                    }
                }
                assert forall|j: int| 0 <= j < last && is_shareable(s, bitfield, peer, j) implies s[last].requesters.len()
                    < s[j].requesters.len() by {
                    assert(is_shareable(d, bitfield, peer, j));
                }
            }
        } else {
            assert(is_best_shared(s, bitfield, peer, b)) by {
                assert forall|j: int| is_shareable(s, bitfield, peer, j) implies s[b].requesters.len()
                    <= s[j].requesters.len() by {
                    if j < last {
                        assert(is_shareable(d, bitfield, peer, j));
                    }
                }
                assert forall|j: int| 0 <= j < b && is_shareable(s, bitfield, peer, j) implies s[b].requesters.len()
                    < s[j].requesters.len() by {
                    assert(is_shareable(d, bitfield, peer, j));
                }
            }
        }
    } else {
        let w = choose|i: int| is_shareable(s, bitfield, peer, i);
        assert(w == last) by {
            if w < last {
                assert(is_shareable(d, bitfield, peer, w));
            }
        }
        assert(is_best_shared(s, bitfield, peer, last)) by {
            assert forall|j: int| 0 <= j < last implies !is_shareable(s, bitfield, peer, j) by {
                if is_shareable(s, bitfield, peer, j) {
                    assert(is_shareable(d, bitfield, peer, j));
                }
            }
        }
    }
}

/// Where a claim goes: to a piece this bitfield can serve, which is not
/// complete and which the claiming peer is not already working.
pub proof fn law_claim_target_is_sound(s: Seq<PieceView>, bitfield: Seq<u8>, peer: Peer)
    requires
        claim_target(s, bitfield, peer) is Some,
    ensures
        ({
            let i = claim_target(s, bitfield, peer)->0;
            &&& 0 <= i < s.len()
            &&& !s[i].complete
            &&& bit_at(bitfield, i)
            &&& !is_requester(s[i], peer)
            &&& s[i].requesters.len() < MAX_PIECE_SHARERS
        }),
{
    if exists|i: int| is_free_for(s, bitfield, i) {
        lemma_first_free_exists(s, bitfield);
        let i = choose|i: int| is_first_free(s, bitfield, i);
        assert(addresses(s[i].requesters) =~= Seq::<PeerAddress>::empty());
    } else {
        lemma_best_shared_exists(s, bitfield, peer);
    }
}

/// Endgame sharing is capped: a claim never gives a piece more than
/// [`MAX_PIECE_SHARERS`] requesters, nor a complete piece any.
pub proof fn law_claim_respects_cap(s: Seq<PieceView>, bitfield: Seq<u8>, peer: Peer)
    requires
        requesters_ok(s),
    ensures
        requesters_ok(spec_after_claim(s, bitfield, peer)),
{
    if claim_target(s, bitfield, peer) is Some {
        law_claim_target_is_sound(s, bitfield, peer);
    }
}

/// Giving a piece back undoes claiming it: released by the peer that just
/// claimed it, every piece is as it was before the claim.
pub proof fn law_release_undoes_claim(s: Seq<PieceView>, bitfield: Seq<u8>, peer: Peer)
    requires
        claim_target(s, bitfield, peer) is Some,
    ensures
        spec_after_release(spec_after_claim(s, bitfield, peer), claim_target(s, bitfield, peer)->0, peer) == s,
{
    law_claim_target_is_sound(s, bitfield, peer);
    let i = claim_target(s, bitfield, peer)->0;
    let r = s[i].requesters;
    let pred = |q: Peer| q.address != peer.address;
    lemma_without_facts(r, peer.address);
    r.lemma_filter_push(peer, pred);
    assert(without(r.push(peer), peer.address) == r);
    assert(spec_after_release(spec_after_claim(s, bitfield, peer), i, peer) =~= s);
}

/// A released piece is no longer worked by the peer that gave it back, and
/// everybody else working it keeps working it.
pub proof fn law_release_removes_only_that_peer(s: Seq<PieceView>, i: int, peer: Peer, other: Peer)
    requires
        0 <= i < s.len(),
        other.address != peer.address,
    ensures
        !is_requester(spec_after_release(s, i, peer)[i], peer),
        is_requester(spec_after_release(s, i, peer)[i], other) == is_requester(s[i], other),
        spec_after_release(s, i, peer)[i].complete == s[i].complete,
{
    lemma_without_facts(s[i].requesters, peer.address);
    let w = without(s[i].requesters, peer.address);
    if is_requester(spec_after_release(s, i, peer)[i], other) {
        let k = choose|k: int| 0 <= k < addresses(w).len() && addresses(w)[k] == other.address;
        let pred = |q: Peer| q.address != peer.address;
        assert(w.contains(w[k]));
        s[i].requesters.lemma_filter_contains_rev(pred, w[k]);
        assert(s[i].requesters.contains(w[k]));
        let m = choose|m: int| 0 <= m < s[i].requesters.len() && s[i].requesters[m] == w[k];
        assert(addresses(s[i].requesters)[m] == other.address);
    }
}

/// Reporting a verified piece is idempotent: once it is recorded, a second
/// report, from any peer, changes no piece and no count.
pub proof fn law_verified_is_idempotent(s: Seq<PieceView>, i: int, first: Peer, second: Peer, piece_length: u64, total_length: u64)
    requires
        requesters_ok(s),
    ensures
        spec_after_verified(spec_after_verified(s, i, first), i, second) == spec_after_verified(s, i, first),
        0 <= i < s.len() ==> spec_after_verified(s, i, first)[i].complete,
{
    let t = spec_after_verified(s, i, first);
    if 0 <= i < s.len() {
        lemma_without_facts(t[i].requesters, second.address);
        if s[i].complete {
            lemma_without_facts(s[i].requesters, first.address);
        }
        assert(spec_after_verified(t, i, second) =~= t);
    }
}

} // verus!
