use vstd::prelude::*;

use crate::bencode::bytes_eq;
use crate::helpers::{sha1, sha1_digest};
use crate::metadata::{files_total, files_view, strings_view, File};
use crate::wire_protocol::{bit_at, Bitfield};

verus! {

/// `a / b` rounded up.
pub open spec fn ceil_div(a: int, b: int) -> int {
    if a % b == 0 {
        a / b
    } else {
        a / b + 1
    }
}

/// Where each region of the partial-download store begins, and how big it
/// is. The file is `[payload][bitfield][info_hash][flags]`; every offset
/// follows from that and the torrent's geometry.
#[derive(Clone, Copy, Debug)]
pub struct StoreLayout {
    /// The torrent's own bytes, the first region of the store.
    pub payload_length: u64,
    /// The stride every piece offset is computed from.
    pub piece_length: u64,
}

/// The width of a SHA-1 digest, the info hash stored in the trailer.
pub const INFO_HASH_LENGTH: u64 = 20;

/// The single flag byte that ends the store.
pub const FLAGS_LENGTH: u64 = 1;

impl StoreLayout {
    /// Pieces the store holds; the last one may be short.
    pub open spec fn spec_piece_count(self) -> int {
        ceil_div(self.payload_length as int, self.piece_length as int)
    }

    /// Bytes of bitfield, one bit per piece.
    pub open spec fn spec_bitfield_length(self) -> int {
        ceil_div(self.spec_piece_count(), 8)
    }

    /// Where byte `piece_offset` of piece `piece_index` lies in the store.
    pub open spec fn spec_piece_at(self, piece_index: u32, piece_offset: u64) -> int {
        self.piece_length * piece_index + piece_offset
    }

    /// Bytes in piece `piece_index`: a whole piece, or what is left of the
    /// payload if that is less.
    pub open spec fn spec_piece_size(self, piece_index: u32) -> int {
        let left = self.payload_length - self.spec_piece_at(piece_index, 0);
        if left <= 0 {
            0
        } else if left < self.piece_length {
            left
        } else {
            self.piece_length as int
        }
    }

    pub open spec fn spec_info_hash_at(self) -> int {
        self.payload_length + self.spec_bitfield_length()
    }

    pub open spec fn spec_flags_at(self) -> int {
        self.spec_info_hash_at() + INFO_HASH_LENGTH
    }

    pub open spec fn spec_file_length(self) -> int {
        self.spec_flags_at() + FLAGS_LENGTH
    }

    /// Whether every offset of the store fits a `u64`.
    pub open spec fn fits(self) -> bool {
        self.piece_length > 0 && self.spec_file_length() <= u64::MAX
    }

    /// Whether the layout can be used: pieces have a length, and every
    /// offset of the store fits a `u64`.
    pub fn offsets_fit(self) -> (r: bool)
        ensures
            r == self.fits(),
    {
        if self.piece_length == 0 {
            return false;
        }
        let bitfield = self.bitfield_length();
        if self.payload_length > u64::MAX - bitfield {
            return false;
        }
        self.payload_length + bitfield <= u64::MAX - (INFO_HASH_LENGTH + FLAGS_LENGTH)
    }

    /// Pieces the store holds. The last one is short unless the payload
    /// divides evenly, but it still occupies a whole slot.
    pub fn piece_count(self) -> (r: u64)
        requires
            self.piece_length > 0,
        ensures
            r == self.spec_piece_count(),
    {
        if self.payload_length % self.piece_length == 0 {
            self.payload_length / self.piece_length
        } else {
            assert(self.payload_length / self.piece_length < u64::MAX) by (nonlinear_arith)
                requires
                    self.piece_length > 0,
                    self.payload_length % self.piece_length != 0,
            ;
            self.payload_length / self.piece_length + 1
        }
    }

    /// Bytes of bitfield, one bit per piece.
    pub fn bitfield_length(self) -> (r: u64)
        requires
            self.piece_length > 0,
        ensures
            r == self.spec_bitfield_length(),
    {
        let count = self.piece_count();
        if count % 8 == 0 {
            count / 8
        } else {
            count / 8 + 1
        }
    }

    /// Byte `piece_offset` of `piece_index`, as an offset into the store.
    /// The payload starts at zero, so this is also the offset into the
    /// payload.
    pub fn piece_at(self, piece_index: u32, piece_offset: u64) -> (r: u64)
        requires
            self.spec_piece_at(piece_index, piece_offset) <= u64::MAX,
        ensures
            r == self.spec_piece_at(piece_index, piece_offset),
    {
        assert(self.piece_length * piece_index <= self.piece_length * piece_index + piece_offset) by (nonlinear_arith)
            requires
                piece_offset >= 0,
        ;
        self.piece_length * piece_index as u64 + piece_offset
    }

    /// Bytes in `piece_index`. Only the last piece is ever short.
    pub fn piece_size(self, piece_index: u32) -> (r: u64)
        requires
            self.spec_piece_at(piece_index, 0) <= u64::MAX,
        ensures
            r == self.spec_piece_size(piece_index),
    {
        let start = self.piece_at(piece_index, 0);
        let left = if self.payload_length > start {
            self.payload_length - start
        } else {
            0
        };
        if self.piece_length < left {
            self.piece_length
        } else {
            left
        }
    }

    /// Where the bitfield begins: right after the payload.
    pub fn bitfield_at(self) -> (r: u64)
        ensures
            r == self.payload_length,
    {
        self.payload_length
    }

    /// Where the stored info hash begins: right after the bitfield.
    pub fn info_hash_at(self) -> (r: u64)
        requires
            self.fits(),
        ensures
            r == self.spec_info_hash_at(),
    {
        self.bitfield_at() + self.bitfield_length()
    }

    /// Where the flag byte is: right after the info hash.
    pub fn flags_at(self) -> (r: u64)
        requires
            self.fits(),
        ensures
            r == self.spec_flags_at(),
    {
        self.info_hash_at() + INFO_HASH_LENGTH
    }

    /// The length of the whole store file.
    pub fn file_length(self) -> (r: u64)
        requires
            self.fits(),
        ensures
            r == self.spec_file_length(),
    {
        self.flags_at() + FLAGS_LENGTH
    }
}

/// The bit of the flag byte that says the last exit was tidy.
pub const CLEAN: u8 = 1;

/// The store's trailing flag byte. Only the clean bit is defined; every other
/// bit is carried through untouched, since a newer build may use it.
#[derive(Clone, Copy, Debug)]
pub struct StoreFlags(pub u8);

impl Default for StoreFlags {
    /// No bit set: a fresh store does not read as cleanly closed.
    fn default() -> (r: Self)
        ensures
            r.0 == 0,
    {
        StoreFlags(0)
    }
}

impl StoreFlags {
    pub open spec fn spec_is_clean(self) -> bool {
        self.0 & CLEAN != 0
    }

    /// These flags with the clean bit set or cleared, every other bit kept.
    pub open spec fn spec_with_clean(self, clean: bool) -> StoreFlags {
        if clean {
            StoreFlags(self.0 | CLEAN)
        } else {
            StoreFlags(self.0 & !CLEAN)
        }
    }

    pub fn from_byte(byte: u8) -> (r: Self)
        ensures
            r.0 == byte,
    {
        StoreFlags(byte)
    }

    pub fn to_byte(self) -> (r: u8)
        ensures
            r == self.0,
    {
        self.0
    }

    /// Whether the last exit left the store tidy.
    pub fn is_clean(self) -> (r: bool)
        ensures
            r == self.spec_is_clean(),
    {
        self.0 & CLEAN != 0
    }

    /// These flags with the clean bit set or cleared, every other bit
    /// carried through untouched.
    pub fn with_clean(self, clean: bool) -> (r: Self)
        ensures
            r == self.spec_with_clean(clean),
    {
        if clean {
            StoreFlags(self.0 | CLEAN)
        } else {
            StoreFlags(self.0 & !CLEAN)
        }
    }
}

/// Setting or clearing the clean bit sets or clears exactly that bit: every
/// other bit of the byte is what it was.
pub proof fn law_with_clean_keeps_other_bits(flags: StoreFlags, clean: bool)
    ensures
        flags.spec_with_clean(clean).spec_is_clean() == clean,
        flags.spec_with_clean(clean).0 & !CLEAN == flags.0 & !CLEAN,
{
    let b = flags.0;
    assert((b | 1u8) & 1u8 != 0) by (bit_vector);
    assert((b & !1u8) & 1u8 == 0) by (bit_vector);
    assert((b | 1u8) & !1u8 == b & !1u8) by (bit_vector);
    assert((b & !1u8) & !1u8 == b & !1u8) by (bit_vector);
}

/// Claiming a cleanly closed store and closing it cleanly again gives back
/// the very byte it had.
pub proof fn law_claim_then_close_restores(flags: StoreFlags)
    requires
        flags.spec_is_clean(),
    ensures
        flags.spec_with_clean(false).spec_with_clean(true) == flags,
{
    let b = flags.0;
    assert(b & 1u8 != 0 ==> (b & !1u8) | 1u8 == b) by (bit_vector);
}

/// A store of zeroed or never-written flags never reads as cleanly closed.
pub proof fn law_default_is_not_clean(flags: StoreFlags)
    requires
        flags.0 == 0,
    ensures
        !flags.spec_is_clean(),
{
    assert(0u8 & 1u8 == 0) by (bit_vector);
}

/// Every piece index below the piece count is a whole slot inside the
/// payload; only the last is short, and the last ends where the payload
/// does.
pub proof fn law_pieces_tile_payload(layout: StoreLayout, piece_index: u32)
    requires
        layout.piece_length > 0,
        piece_index < layout.spec_piece_count(),
    ensures
        0 < layout.spec_piece_size(piece_index),
        layout.spec_piece_at(piece_index, 0) + layout.spec_piece_size(piece_index) <= layout.payload_length,
        piece_index + 1 < layout.spec_piece_count() ==> layout.spec_piece_size(piece_index) == layout.piece_length,
        piece_index + 1 == layout.spec_piece_count() ==> layout.spec_piece_at(piece_index, 0)
            + layout.spec_piece_size(piece_index) == layout.payload_length,
{
    let p = layout.payload_length as int;
    let l = layout.piece_length as int;
    let i = piece_index as int;
    let c = layout.spec_piece_count();
    assert(l * i < p) by (nonlinear_arith)
        requires
            l > 0,
            0 <= i < c,
            c == (if p % l == 0 { p / l } else { p / l + 1 }),
    ;
    assert(i + 1 < c ==> l * i + l <= p) by (nonlinear_arith)
        requires
            l > 0,
            0 <= i,
            c == (if p % l == 0 { p / l } else { p / l + 1 }),
    ;
    assert(i + 1 == c ==> p - l * i <= l) by (nonlinear_arith)
        requires
            l > 0,
            0 <= i,
            c == (if p % l == 0 { p / l } else { p / l + 1 }),
    ;
}

/// The bitfield has a bit for every piece and no byte to spare.
pub proof fn law_bitfield_fits_pieces(layout: StoreLayout)
    requires
        layout.piece_length > 0,
    ensures
        layout.spec_piece_count() <= 8 * layout.spec_bitfield_length() < layout.spec_piece_count() + 8,
{
    let c = layout.spec_piece_count();
    assert(c >= 0) by (nonlinear_arith)
        requires
            layout.piece_length > 0,
            c == ceil_div(layout.payload_length as int, layout.piece_length as int),
    ;
}

impl StoreLayout {
    /// Whether a store found on disk can be resumed: it exists and has
    /// exactly the length this layout gives. Anything else is laid out
    /// afresh, as a missing store would be.
    pub fn is_resumable(self, existed: bool, actual_length: u64) -> (r: bool)
        requires
            self.fits(),
        ensures
            r == (existed && actual_length == self.spec_file_length()),
    {
        existed && actual_length == self.file_length()
    }

    /// The trailer a fresh store is laid out with, from the bitfield's
    /// offset to the end: a bitfield with no piece, the info hash, and flags
    /// that do not read as clean.
    pub fn fresh_trailer(self, info_hash: &[u8; 20]) -> (r: Vec<u8>)
        requires
            self.fits(),
        ensures
            r@.len() == self.spec_file_length() - self.payload_length,
            forall|i: int| 0 <= i < self.spec_bitfield_length() ==> r@[i] == 0,
            r@.subrange(self.spec_bitfield_length(), self.spec_bitfield_length() + 20) == info_hash@,
            r@[r@.len() - 1] == StoreFlags::default_byte(),
    {
        let n = self.bitfield_length();
        let mut r: Vec<u8> = Vec::new();
        let mut k: u64 = 0;
        while k < n
            invariant
                k <= n,
                n == self.spec_bitfield_length(),
                self.fits(),
                r@.len() == k,
                forall|i: int| 0 <= i < k ==> r@[i] == 0,
            decreases n - k,
        {
            r.push(0);
            k = k + 1;
        }
        let mut j: usize = 0;
        while j < 20
            invariant
                j <= 20,
                r@.len() == n + j,
                forall|i: int| 0 <= i < n ==> r@[i] == 0,
                forall|i: int| 0 <= i < j ==> r@[n + i] == info_hash@[i],
            decreases 20 - j,
        {
            r.push(info_hash[j]);
            j = j + 1;
        }
        r.push(StoreFlags::default().to_byte());
        assert(r@.subrange(n as int, n + 20) =~= info_hash@);
        r
    }
}

impl StoreFlags {
    /// The flag byte of a freshly laid-out store.
    pub open spec fn default_byte() -> u8 {
        0
    }
}

/// What a store of the right size comes to, once its trailer is read.
#[derive(Clone, Copy, Debug, PartialEq, Eq, Structural)]
pub enum Resume {
    /// It belongs to another torrent: nothing in it is claimed, and it is
    /// laid out afresh for this one, so the next start resumes it.
    Foreign,
    /// The last exit was tidy: its bitfield is believed as it stands, and the
    /// store is claimed by clearing the clean bit.
    Trusted,
    /// The last process died holding it: every piece its bitfield claims is
    /// hashed again before it is believed.
    Recheck,
}

/// How to resume a store of the right size, from the info hash it records
/// and its flag byte.
pub fn resume_verdict(expected: &[u8; 20], stored: &[u8; 20], flags: StoreFlags) -> (r: Resume)
    ensures
        stored@ != expected@ ==> r == Resume::Foreign,
        stored@ == expected@ && flags.spec_is_clean() ==> r == Resume::Trusted,
        stored@ == expected@ && !flags.spec_is_clean() ==> r == Resume::Recheck,
{
    if !bytes_eq(stored.as_slice(), expected.as_slice()) {
        Resume::Foreign
    } else if flags.is_clean() {
        Resume::Trusted
    } else {
        Resume::Recheck
    }
}

/// Checks one piece a crashed store's bitfield claims: it stays claimed only
/// if the bytes stored for it hash to what the torrent says.
pub fn recheck_piece(bitfield: &mut Bitfield, piece_index: u32, stored: &[u8], expected: &[u8; 20])
    requires
        (piece_index as int) / 8 < old(bitfield)@.len(),
    ensures
        final(bitfield)@.len() == old(bitfield)@.len(),
        bit_at(final(bitfield)@, piece_index as int) == (bit_at(old(bitfield)@, piece_index as int) && sha1_digest(
            stored@,
        ) == expected@),
        forall|j: int| j != piece_index ==> bit_at(final(bitfield)@, j) == bit_at(old(bitfield)@, j),
{
    let digest = sha1(stored);
    if !bytes_eq(digest.as_slice(), expected.as_slice()) {
        bitfield.set_piece(piece_index, false);
    }
}

/// One file to copy out of the store once every piece is held: where its
/// bytes begin in the payload, how many there are, and its path below the
/// download directory, one component per entry.
pub struct Extraction {
    pub path: Vec<String>,
    pub offset: u64,
    pub length: u64,
}

/// Where each of the torrent's files lies in the payload. A single-file
/// torrent is the whole payload under its name; a multi-file torrent's files
/// follow one another from the start, each under a directory of the
/// torrent's name.
pub fn extraction_plan(name: &String, payload_length: u64, files: &Option<Vec<File>>) -> (r: Vec<Extraction>)
    requires
        files matches Some(f) ==> files_total(files_view(f@)) <= u64::MAX,
    ensures
        files is None ==> r@.len() == 1 && strings_view(r@[0].path@) == seq![name@] && r@[0].offset == 0
            && r@[0].length == payload_length,
        files matches Some(f) ==> {
            &&& r@.len() == f@.len()
            &&& forall|i: int|
                0 <= i < f@.len() ==> {
                    &&& strings_view((#[trigger] r@[i]).path@) == seq![name@] + strings_view(f@[i].path@)
                    &&& r@[i].offset == files_total(files_view(f@).take(i))
                    &&& r@[i].length == f@[i].length
                }
        },
{
    let mut plan: Vec<Extraction> = Vec::new();
    match files {
        None => {
            let mut path: Vec<String> = Vec::new();
            path.push(name.clone());
            assert(strings_view(path@) =~= seq![name@]);
            plan.push(Extraction { path, offset: 0, length: payload_length });
        },
        Some(files) => {
            let ghost fv = files_view(files@);
            let mut offset: u64 = 0;
            let mut k: usize = 0;
            while k < files.len()
                invariant
                    k <= files@.len(),
                    fv == files_view(files@),
                    files_total(fv) <= u64::MAX,
                    offset == files_total(fv.take(k as int)),
                    plan@.len() == k,
                    forall|i: int|
                        0 <= i < k ==> {
                            &&& strings_view((#[trigger] plan@[i]).path@) == seq![name@] + strings_view(files@[i].path@)
                            &&& plan@[i].offset == files_total(fv.take(i))
                            &&& plan@[i].length == files@[i].length
                        },
                decreases files@.len() - k,
            {
                let file = &files[k];
                let mut path: Vec<String> = Vec::new();
                path.push(name.clone());
                let mut j: usize = 0;
                while j < file.path.len()
                    invariant
                        j <= file.path@.len(),
                        strings_view(path@) == seq![name@] + strings_view(file.path@).take(j as int),
                    decreases file.path@.len() - j,
                {
                    let ghost prev = path@;
                    path.push(file.path[j].clone());
                    proof {
                        assert(strings_view(path@) =~= strings_view(prev).push(file.path@[j as int]@));
                        assert(strings_view(file.path@).take(j + 1) =~= strings_view(file.path@).take(j as int).push(
                            file.path@[j as int]@,
                        ));
                    }
                    j = j + 1;
                }
                assert(strings_view(file.path@).take(j as int) =~= strings_view(file.path@));
                proof {
                    assert(fv.take(k + 1).drop_last() =~= fv.take(k as int));
                    crate::metadata::lemma_files_total_prefix(fv, k + 1);
                }
                plan.push(Extraction { path, offset, length: file.length });
                offset = offset + file.length;
                k = k + 1;
            }
        },
    }
    plan
}

impl StoreLayout {
    /// Whether a torrent's piece hashes fit this store: one hash per piece.
    pub fn holds_hashes(self, hash_count: usize) -> (r: bool)
        requires
            self.piece_length > 0,
        ensures
            r == (hash_count == self.spec_piece_count()),
    {
        hash_count as u64 == self.piece_count()
    }
}

/// The bitfield a crashed store comes back with: a piece stays claimed only
/// if the stored bitfield claims it and the bytes read for it hash to what
/// the torrent says. Bits past the last piece are kept as they were.
pub open spec fn rechecked(stored: Seq<u8>, read: Seq<Seq<u8>>, hashes: Seq<[u8; 20]>, r: Seq<u8>) -> bool {
    &&& r.len() == stored.len()
    &&& forall|i: int|
        0 <= i < hashes.len() ==> #[trigger] bit_at(r, i) == (bit_at(stored, i) && sha1_digest(read[i])
            == hashes[i]@)
    &&& forall|j: int| hashes.len() <= j ==> #[trigger] bit_at(r, j) == bit_at(stored, j)
}

/// Hashes again every piece a crashed store claims, one piece at a time so
/// that the payload is never held whole. [`Recheck::next_read`] says which
/// bytes of the store to read next; [`Recheck::absorb`] takes them;
/// [`Recheck::finish`] gives the bitfield to believe.
pub struct Recheck {
    pub layout: StoreLayout,
    pub bitfield: Bitfield,
    pub hashes: Vec<[u8; 20]>,
    /// The piece looked at next.
    pub next: usize,
    /// The bitfield as the store held it.
    pub stored: Ghost<Seq<u8>>,
    /// What was taken for each piece looked at so far; nothing for a piece
    /// the store did not claim.
    pub read: Ghost<Seq<Seq<u8>>>,
}

impl Recheck {
    pub open spec fn wf(self) -> bool {
        &&& self.layout.fits()
        &&& self.hashes@.len() == self.layout.spec_piece_count()
        &&& self.hashes@.len() <= u32::MAX
        &&& self.stored@.len() == self.layout.spec_bitfield_length()
        &&& self.next <= self.hashes@.len()
        &&& self.read@.len() == self.next
        &&& self.bitfield@.len() == self.stored@.len()
        &&& forall|i: int|
            0 <= i < self.next ==> #[trigger] bit_at(self.bitfield@, i) == (bit_at(self.stored@, i) && sha1_digest(
                self.read@[i],
            ) == self.hashes@[i]@)
        &&& forall|j: int| self.next <= j ==> #[trigger] bit_at(self.bitfield@, j) == bit_at(self.stored@, j)
    }

    /// Starts on the bitfield a crashed store holds, with the torrent's piece
    /// hashes.
    pub fn new(layout: StoreLayout, stored: Bitfield, hashes: Vec<[u8; 20]>) -> (r: Self)
        requires
            layout.fits(),
            hashes@.len() == layout.spec_piece_count(),
            hashes@.len() <= u32::MAX,
            stored@.len() == layout.spec_bitfield_length(),
        ensures
            r.wf(),
            r.stored@ == stored@,
            r.hashes@ == hashes@,
            r.layout == layout,
            r.next == 0,
    {
        let ghost s = stored@;
        Recheck { layout, bitfield: stored, hashes, next: 0, stored: Ghost(s), read: Ghost(Seq::empty()) }
    }

    /// Moves past the pieces the store does not claim, and says where the
    /// next claimed piece lies in the store: its index, offset and length.
    /// `None` once every piece has been looked at.
    pub fn next_read(&mut self) -> (r: Option<(u32, u64, u64)>)
        requires
            old(self).wf(),
        ensures
            final(self).wf(),
            final(self).layout == old(self).layout,
            final(self).hashes@ == old(self).hashes@,
            final(self).stored@ == old(self).stored@,
            final(self).bitfield@ == old(self).bitfield@,
            old(self).next <= final(self).next,
            old(self).read@ == final(self).read@.take(old(self).next as int),
            forall|i: int|
                old(self).next <= i < final(self).next ==> !#[trigger] bit_at(old(self).stored@, i),
            match r {
                None => final(self).next == final(self).hashes@.len(),
                Some((index, offset, length)) => {
                    &&& index == final(self).next
                    &&& final(self).next < final(self).hashes@.len()
                    &&& bit_at(final(self).stored@, index as int)
                    &&& offset == final(self).layout.spec_piece_at(index, 0)
                    &&& length == final(self).layout.spec_piece_size(index)
                },
            },
    {
        let ghost start = self.next;
        assert(self.read@.take(start as int) =~= self.read@);
        while self.next < self.hashes.len() && !self.bitfield.has_piece(self.next as u32)
            invariant
                self.wf(),
                self.layout == old(self).layout,
                self.hashes@ == old(self).hashes@,
                self.stored@ == old(self).stored@,
                self.bitfield@ == old(self).bitfield@,
                start == old(self).next,
                start <= self.next,
                old(self).read@ == self.read@.take(start as int),
                forall|i: int| start <= i < self.next ==> !#[trigger] bit_at(old(self).stored@, i),
            decreases self.hashes@.len() - self.next,
        {
            proof {
                let n = self.next as int;
                assert(bit_at(self.bitfield@, n) == bit_at(self.stored@, n));
                assert(bit_at(old(self).stored@, n) == bit_at(self.stored@, n));
                let old_read = self.read@;
                self.read@ = self.read@.push(Seq::empty());
                assert(self.read@.take(start as int) =~= old_read.take(start as int));
            }
            self.next = self.next + 1;
            proof {
                assert forall|i: int| 0 <= i < self.next implies #[trigger] bit_at(self.bitfield@, i) == (bit_at(
                    self.stored@,
                    i,
                ) && sha1_digest(self.read@[i]) == self.hashes@[i]@) by {
                    if i == self.next - 1 {
                        assert(bit_at(self.bitfield@, i) == bit_at(self.stored@, i));
                    }
                }
            }
        }
        if self.next == self.hashes.len() {
            return None;
        }
        let index = self.next as u32;
        proof {
            law_pieces_tile_payload(self.layout, index);
            assert(bit_at(self.bitfield@, index as int) == bit_at(self.stored@, index as int));
        }
        let offset = self.layout.piece_at(index, 0);
        let length = self.layout.piece_size(index);
        Some((index, offset, length))
    }

    /// Takes the bytes read for the piece [`Recheck::next_read`] named: it
    /// stays claimed only if they hash to what the torrent says.
    pub fn absorb(&mut self, piece: &[u8])
        requires
            old(self).wf(),
            old(self).next < old(self).hashes@.len(),
        ensures
            final(self).wf(),
            final(self).layout == old(self).layout,
            final(self).hashes@ == old(self).hashes@,
            final(self).stored@ == old(self).stored@,
            final(self).next == old(self).next + 1,
            final(self).read@ == old(self).read@.push(piece@),
    {
        let index = self.next as u32;
        proof {
            law_bitfield_fits_pieces(self.layout);
        }
        let ghost before = self.bitfield@;
        let hash = self.hashes[self.next];
        recheck_piece(&mut self.bitfield, index, piece, &hash);
        proof {
            self.read@ = self.read@.push(piece@);
        }
        self.next = self.next + 1;
        proof {
            assert(bit_at(before, index as int) == bit_at(self.stored@, index as int));
            assert forall|i: int| 0 <= i < self.next implies #[trigger] bit_at(self.bitfield@, i) == (bit_at(
                self.stored@,
                i,
            ) && sha1_digest(self.read@[i]) == self.hashes@[i]@) by {
                if i < index {
                    assert(self.read@[i] == old(self).read@[i]);
                    assert(bit_at(self.bitfield@, i) == bit_at(before, i));
                }
            }
            assert forall|j: int| self.next <= j implies #[trigger] bit_at(self.bitfield@, j) == bit_at(
                self.stored@,
                j,
            ) by {
                assert(bit_at(self.bitfield@, j) == bit_at(before, j));
            }
        }
    }

    /// The bitfield to believe, once every piece has been looked at.
    pub fn finish(self) -> (r: Bitfield)
        requires
            self.wf(),
            self.next == self.hashes@.len(),
        ensures
            rechecked(self.stored@, self.read@, self.hashes@, r@),
    {
        self.bitfield
    }
}

} // verus!
