use vstd::prelude::*;

verus! {

/// Whether bit `index` of a BitTorrent bitfield is set. Bits are numbered
/// from the most significant bit of the first byte; an index past the end
/// reads as unset.
pub open spec fn bit_at(bytes: Seq<u8>, index: int) -> bool {
    0 <= index && index / 8 < bytes.len() && ((bytes[index / 8] >> ((7 - index % 8) as u8)) & 1u8) == 1u8
}

/// One bit per piece, most significant bit of the first byte first.
#[derive(Debug)]
pub struct Bitfield(pub Vec<u8>);

impl Clone for Bitfield {
    fn clone(&self) -> (r: Self)
        ensures
            r@ == self@,
    {
        Bitfield(self.0.clone())
    }
}

impl View for Bitfield {
    type V = Seq<u8>;

    open spec fn view(&self) -> Seq<u8> {
        self.0@
    }
}

proof fn lemma_bit_set(b: u8, k: u8, m: u8)
    requires
        k < 8,
        m < 8,
    ensures
        ((b | (1u8 << k)) >> m) & 1u8 == (if m == k { 1u8 } else { (b >> m) & 1u8 }),
        ((b & !(1u8 << k)) >> m) & 1u8 == (if m == k { 0u8 } else { (b >> m) & 1u8 }),
{
    assert(((b | (1u8 << k)) >> m) & 1u8 == (if m == k { 1u8 } else { (b >> m) & 1u8 }))
        by (bit_vector)
        requires
            k < 8,
            m < 8,
    ;
    assert(((b & !(1u8 << k)) >> m) & 1u8 == (if m == k { 0u8 } else { (b >> m) & 1u8 }))
        by (bit_vector)
        requires
            k < 8,
            m < 8,
    ;
}

/// `bytes` with bit `index` set or cleared.
pub open spec fn spec_set_bit(bytes: Seq<u8>, index: u32, has: bool) -> Seq<u8> {
    let i = (index / 8) as int;
    let shift = (7 - index % 8) as u8;
    bytes.update(i, if has { bytes[i] | (1u8 << shift) } else { bytes[i] & !(1u8 << shift) })
}

impl Bitfield {
    /// Whether the peer holds `index`. Indices past the end read as absent.
    pub fn has_piece(&self, index: u32) -> (has: bool)
        ensures
            has == bit_at(self@, index as int),
    {
        let byte_index = (index / 8) as usize;
        if byte_index < self.0.len() {
            let shift = (7 - (index % 8)) as u8;
            (self.0[byte_index] >> shift) & 1u8 == 1u8
        } else {
            false
        }
    }

    /// Sets or clears the bit for `index`, leaving every other bit alone.
    pub fn set_piece(&mut self, index: u32, has: bool)
        requires
            (index as int) / 8 < old(self)@.len(),
        ensures
            final(self)@ == spec_set_bit(old(self)@, index, has),
            final(self)@.len() == old(self)@.len(),
            bit_at(final(self)@, index as int) == has,
            forall|j: int| j != index ==> bit_at(final(self)@, j) == bit_at(old(self)@, j),
    {
        let byte_index = (index / 8) as usize;
        let bit_index = (7 - (index % 8)) as u8;
        let old_byte = self.0[byte_index];
        let new_byte = if has {
            old_byte | (1u8 << bit_index)
        } else {
            old_byte & !(1u8 << bit_index)
        };
        self.0.set(byte_index, new_byte);
        proof {
            assert forall|j: int| j != index implies bit_at(self@, j) == bit_at(old(self)@, j) by {
                if 0 <= j && j / 8 == index / 8 {
                    lemma_bit_set(old_byte, bit_index, (7 - j % 8) as u8);
                }
            }
            lemma_bit_set(old_byte, bit_index, bit_index);
        }
    }
}

/// A handshake, the first thing each side sends.
#[derive(Debug)]
pub struct Handshake {
    pub pstrlen: u8,
    pub pstr: String,
    pub reserved: [u8; 8],
    pub info_hash: [u8; 20],
    pub peer_id: [u8; 20],
}

/// A peer wire message.
#[derive(Debug)]
pub enum Message {
    /// The one message with no id: a bare length prefix of zero.
    KeepAlive,
    Choke,
    Unchoke,
    Interested,
    NotInterested,
    Have(u32),
    Bitfield(Bitfield),
    Request { index: u32, begin: u32, length: u32 },
    Piece { index: u32, begin: u32, block: Vec<u8> },
    Cancel { index: u32, begin: u32, length: u32 },
    Port(u16),
}

/// A peer wire message as plain values.
pub enum MessageView {
    KeepAlive,
    Choke,
    Unchoke,
    Interested,
    NotInterested,
    Have(u32),
    Bitfield(Seq<u8>),
    Request { index: u32, begin: u32, length: u32 },
    Piece { index: u32, begin: u32, block: Seq<u8> },
    Cancel { index: u32, begin: u32, length: u32 },
    Port(u16),
}

impl View for Message {
    type V = MessageView;

    open spec fn view(&self) -> MessageView {
        match self {
            Message::KeepAlive => MessageView::KeepAlive,
            Message::Choke => MessageView::Choke,
            Message::Unchoke => MessageView::Unchoke,
            Message::Interested => MessageView::Interested,
            Message::NotInterested => MessageView::NotInterested,
            Message::Have(i) => MessageView::Have(*i),
            Message::Bitfield(b) => MessageView::Bitfield(b@),
            Message::Request { index, begin, length } => MessageView::Request {
                index: *index,
                begin: *begin,
                length: *length,
            },
            Message::Piece { index, begin, block } => MessageView::Piece {
                index: *index,
                begin: *begin,
                block: block@,
            },
            Message::Cancel { index, begin, length } => MessageView::Cancel {
                index: *index,
                begin: *begin,
                length: *length,
            },
            Message::Port(p) => MessageView::Port(*p),
        }
    }
}

/// What the codec reads off the wire, or writes to it.
#[derive(Debug)]
pub enum WireItem {
    /// Just the `info_hash`, as soon as it is available, so the side that was
    /// dialled can answer with its own handshake early.
    HandshakePartial { info_hash: [u8; 20] },
    /// The full handshake.
    Handshake(Handshake),
    /// A normal wire message.
    Message(Message),
}

/// The four big-endian bytes of `x`.
pub open spec fn u32_bytes(x: u32) -> Seq<u8> {
    seq![(x >> 24u32) as u8, (x >> 16u32) as u8, (x >> 8u32) as u8, x as u8]
}

/// The two big-endian bytes of `x`.
pub open spec fn u16_bytes(x: u16) -> Seq<u8> {
    seq![(x >> 8u16) as u8, x as u8]
}

/// The `u32` whose big-endian bytes are `s[i..i + 4]`.
pub open spec fn be_u32_at(s: Seq<u8>, i: int) -> u32 {
    ((s[i] as u32) << 24u32) | ((s[i + 1] as u32) << 16u32) | ((s[i + 2] as u32) << 8u32) | (s[i + 3] as u32)
}

/// The `u16` whose big-endian bytes are `s[i..i + 2]`.
pub open spec fn be_u16_at(s: Seq<u8>, i: int) -> u16 {
    ((s[i] as u16) << 8u16) | (s[i + 1] as u16)
}

pub proof fn lemma_u32_roundtrip(x: u32)
    ensures
        be_u32_at(u32_bytes(x), 0) == x,
{
    let s = u32_bytes(x);
    assert((((x >> 24u32) as u8 as u32) << 24u32) | (((x >> 16u32) as u8 as u32) << 16u32) | (((x
        >> 8u32) as u8 as u32) << 8u32) | (x as u8 as u32) == x) by (bit_vector);
}

pub proof fn lemma_u16_roundtrip(x: u16)
    ensures
        be_u16_at(u16_bytes(x), 0) == x,
{
    assert((((x >> 8u16) as u8 as u16) << 8u16) | (x as u8 as u16) == x) by (bit_vector);
}

/// Reads the big-endian `u32` at `i`.
pub fn read_u32(s: &[u8], i: usize) -> (r: u32)
    requires
        i + 4 <= s@.len(),
    ensures
        r == be_u32_at(s@, i as int),
{
    ((s[i] as u32) << 24u32) | ((s[i + 1] as u32) << 16u32) | ((s[i + 2] as u32) << 8u32) | (s[i + 3] as u32)
}

/// Reads the big-endian `u16` at `i`.
pub fn read_u16(s: &[u8], i: usize) -> (r: u16)
    requires
        i + 2 <= s@.len(),
    ensures
        r == be_u16_at(s@, i as int),
{
    ((s[i] as u16) << 8u16) | (s[i + 1] as u16)
}

/// Appends the big-endian bytes of `x`.
pub fn put_u32(dst: &mut Vec<u8>, x: u32)
    ensures
        final(dst)@ == old(dst)@ + u32_bytes(x),
{
    dst.push((x >> 24u32) as u8);
    dst.push((x >> 16u32) as u8);
    dst.push((x >> 8u32) as u8);
    dst.push(x as u8);
    assert(dst@ =~= old(dst)@ + u32_bytes(x));
}

/// Appends the big-endian bytes of `x`.
pub fn put_u16(dst: &mut Vec<u8>, x: u16)
    ensures
        final(dst)@ == old(dst)@ + u16_bytes(x),
{
    dst.push((x >> 8u16) as u8);
    dst.push(x as u8);
    assert(dst@ =~= old(dst)@ + u16_bytes(x));
}

/// Appends every byte of `bytes`.
pub fn put_slice(dst: &mut Vec<u8>, bytes: &[u8])
    ensures
        final(dst)@ == old(dst)@ + bytes@,
{
    let mut k: usize = 0;
    while k < bytes.len()
        invariant
            k <= bytes@.len(),
            dst@ == old(dst)@ + bytes@.take(k as int),
        decreases bytes@.len() - k,
    {
        dst.push(bytes[k]);
        k = k + 1;
        assert(bytes@.take(k as int) =~= bytes@.take(k - 1).push(bytes@[k - 1]));
    }
    assert(bytes@.take(k as int) =~= bytes@);
}

/// Copies `s[start..end]` into a new vector.
pub fn copy_range(s: &[u8], start: usize, end: usize) -> (r: Vec<u8>)
    requires
        start <= end <= s@.len(),
    ensures
        r@ == s@.subrange(start as int, end as int),
{
    let mut r: Vec<u8> = Vec::new();
    let mut k: usize = start;
    while k < end
        invariant
            start <= k <= end,
            end <= s@.len(),
            r@ == s@.subrange(start as int, k as int),
        decreases end - k,
    {
        r.push(s[k]);
        k = k + 1;
        assert(r@ =~= s@.subrange(start as int, k as int));
    }
    r
}

} // verus!
