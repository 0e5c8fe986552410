use vstd::prelude::*;
use vstd::utf8::encode_utf8;

use crate::wire_protocol::{
    be_u16_at, be_u32_at, copy_range, put_slice, put_u16, put_u32, read_u16, read_u32, u16_bytes, u32_bytes,
    lemma_u16_roundtrip, lemma_u32_roundtrip, Bitfield, Handshake, Message, MessageView, WireItem,
};

verus! {

/// Why the codec refused its input.
#[derive(Clone, Copy, Debug, PartialEq, Eq, Structural)]
pub enum ErrorKind {
    /// The bytes read are not the protocol.
    InvalidData,
    /// The item handed to the encoder cannot be written.
    InvalidInput,
}

/// A refusal by the codec.
#[derive(Debug)]
pub struct CodecError {
    pub kind: ErrorKind,
}

impl CodecError {
    pub fn kind(&self) -> (k: ErrorKind)
        ensures
            k == self.kind,
    {
        self.kind
    }
}

/// The bytes of the protocol string, "BitTorrent protocol".
pub open spec fn protocol_bytes() -> Seq<u8> {
    seq![66u8, 105u8, 116u8, 84u8, 111u8, 114u8, 114u8, 101u8, 110u8, 116u8, 32u8, 112u8, 114u8, 111u8, 116u8, 111u8, 99u8, 111u8, 108u8]
}

/// The id byte written ahead of a message's fields. Keep-alive has none.
pub open spec fn message_id(m: MessageView) -> u8 {
    match m {
        MessageView::KeepAlive => 0,
        MessageView::Choke => 0,
        MessageView::Unchoke => 1,
        MessageView::Interested => 2,
        MessageView::NotInterested => 3,
        MessageView::Have(_) => 4,
        MessageView::Bitfield(_) => 5,
        MessageView::Request { .. } => 6,
        MessageView::Piece { .. } => 7,
        MessageView::Cancel { .. } => 8,
        MessageView::Port(_) => 9,
    }
}

/// A message's fields after its id.
pub open spec fn payload_bytes(m: MessageView) -> Seq<u8> {
    match m {
        MessageView::Have(i) => u32_bytes(i),
        MessageView::Bitfield(b) => b,
        MessageView::Request { index, begin, length } => u32_bytes(index) + u32_bytes(begin) + u32_bytes(length),
        MessageView::Piece { index, begin, block } => u32_bytes(index) + u32_bytes(begin) + block,
        MessageView::Cancel { index, begin, length } => u32_bytes(index) + u32_bytes(begin) + u32_bytes(length),
        MessageView::Port(p) => u16_bytes(p),
        _ => Seq::empty(),
    }
}

/// Whether a message's frame length fits the 32-bit length prefix.
pub open spec fn fits_frame(m: MessageView) -> bool {
    payload_bytes(m).len() + 1 <= u32::MAX
}

/// The frame a message is written as: a 4-byte length, then the id and the
/// fields; keep-alive is a bare length of zero.
pub open spec fn frame_bytes(m: MessageView) -> Seq<u8> {
    match m {
        MessageView::KeepAlive => u32_bytes(0),
        _ => u32_bytes((payload_bytes(m).len() + 1) as u32) + seq![message_id(m)] + payload_bytes(m),
    }
}

/// How one frame at the start of a buffer reads.
pub enum FrameView {
    /// The buffer does not hold the whole frame yet.
    NeedMore,
    /// The frame is whole but its fields are too short for its id.
    Invalid,
    /// A frame of an id we do not know, `n` bytes long, to be passed over.
    Skip(nat),
    /// A message, from a frame `n` bytes long.
    Item(nat, MessageView),
}

/// Reads the frame at the start of `b`.
pub open spec fn spec_frame(b: Seq<u8>) -> FrameView {
    if b.len() < 4 {
        FrameView::NeedMore
    } else {
        let len = be_u32_at(b, 0) as int;
        if b.len() < 4 + len {
            FrameView::NeedMore
        } else if len == 0 {
            FrameView::Item(4, MessageView::KeepAlive)
        } else {
            let n = (4 + len) as nat;
            let rest = b.subrange(5, 4 + len);
            let id = b[4];
            if id == 0 {
                FrameView::Item(n, MessageView::Choke)
            } else if id == 1 {
                FrameView::Item(n, MessageView::Unchoke)
            } else if id == 2 {
                FrameView::Item(n, MessageView::Interested)
            } else if id == 3 {
                FrameView::Item(n, MessageView::NotInterested)
            } else if id == 4 {
                if rest.len() < 4 {
                    FrameView::Invalid
                } else {
                    FrameView::Item(n, MessageView::Have(be_u32_at(rest, 0)))
                }
            } else if id == 5 {
                FrameView::Item(n, MessageView::Bitfield(rest))
            } else if id == 6 || id == 8 {
                if rest.len() < 12 {
                    FrameView::Invalid
                } else if id == 6 {
                    FrameView::Item(
                        n,
                        MessageView::Request {
                            index: be_u32_at(rest, 0),
                            begin: be_u32_at(rest, 4),
                            length: be_u32_at(rest, 8),
                        },
                    )
                } else {
                    FrameView::Item(
                        n,
                        MessageView::Cancel {
                            index: be_u32_at(rest, 0),
                            begin: be_u32_at(rest, 4),
                            length: be_u32_at(rest, 8),
                        },
                    )
                }
            } else if id == 7 {
                if rest.len() < 8 {
                    FrameView::Invalid
                } else {
                    FrameView::Item(
                        n,
                        MessageView::Piece {
                            index: be_u32_at(rest, 0),
                            begin: be_u32_at(rest, 4),
                            block: rest.subrange(8, rest.len() as int),
                        },
                    )
                }
            } else if id == 9 {
                if rest.len() < 2 {
                    FrameView::Invalid
                } else {
                    FrameView::Item(n, MessageView::Port(be_u16_at(rest, 0)))
                }
            } else {
                FrameView::Skip(n)
            }
        }
    }
}

/// What reading messages from a buffer comes to.
pub enum DecodeView {
    /// More bytes are needed before the next message.
    NeedMore,
    /// The next frame is malformed.
    Invalid,
    /// The next message, ending `n` bytes into the buffer.
    Item(nat, MessageView),
}

/// Reads the next message from `b`, passing over frames of unknown ids.
/// The first component counts the bytes of those passed-over frames, which
/// are consumed whatever comes after them.
pub open spec fn spec_decode(b: Seq<u8>) -> (nat, DecodeView)
    decreases b.len(),
{
    match spec_frame(b) {
        FrameView::NeedMore => (0, DecodeView::NeedMore),
        FrameView::Invalid => (0, DecodeView::Invalid),
        FrameView::Item(n, m) => (0, DecodeView::Item(n, m)),
        FrameView::Skip(n) => if 0 < n <= b.len() {
            let (k, r) = spec_decode(b.subrange(n as int, b.len() as int));
            (
                n + k,
                match r {
                    DecodeView::Item(m, v) => DecodeView::Item(n + m, v),
                    DecodeView::NeedMore => DecodeView::NeedMore,
                    DecodeView::Invalid => DecodeView::Invalid,
                },
            )
        } else {
            (0, DecodeView::NeedMore)
        },
    }
}

/// How one frame reads, as values.
pub enum FrameOutcome {
    NeedMore,
    Invalid,
    Skip(usize),
    Item(usize, Message),
}

pub open spec fn frame_matches(r: FrameOutcome, v: FrameView) -> bool {
    match (r, v) {
        (FrameOutcome::NeedMore, FrameView::NeedMore) => true,
        (FrameOutcome::Invalid, FrameView::Invalid) => true,
        (FrameOutcome::Skip(n), FrameView::Skip(m)) => n == m,
        (FrameOutcome::Item(n, msg), FrameView::Item(m, v)) => n == m && msg@ == v,
        _ => false,
    }
}

/// Reads the frame starting `off` bytes into `buf`.
pub fn decode_frame_at(buf: &[u8], off: usize) -> (r: FrameOutcome)
    requires
        off <= buf@.len(),
    ensures
        frame_matches(r, spec_frame(buf@.subrange(off as int, buf@.len() as int))),
{
    let ghost b = buf@.subrange(off as int, buf@.len() as int);
    let avail = buf.len() - off;
    if avail < 4 {
        return FrameOutcome::NeedMore;
    }
    let len = read_u32(buf, off);
    assert(len == be_u32_at(b, 0));
    if (avail as u64) < 4 + (len as u64) {
        return FrameOutcome::NeedMore;
    }
    if len == 0 {
        return FrameOutcome::Item(4, Message::KeepAlive);
    }
    let n: usize = 4 + len as usize;
    let start = off + 5;
    let end = off + n;
    let rest_len = n - 5;
    let ghost rest = b.subrange(5, n as int);
    assert(rest =~= buf@.subrange(start as int, end as int));
    let id = buf[off + 4];
    assert(id == b[4]);
    if id == 0 {
        FrameOutcome::Item(n, Message::Choke)
    } else if id == 1 {
        FrameOutcome::Item(n, Message::Unchoke)
    } else if id == 2 {
        FrameOutcome::Item(n, Message::Interested)
    } else if id == 3 {
        FrameOutcome::Item(n, Message::NotInterested)
    } else if id == 4 {
        if rest_len < 4 {
            FrameOutcome::Invalid
        } else {
            let v = read_u32(buf, start);
            assert(v == be_u32_at(rest, 0));
            FrameOutcome::Item(n, Message::Have(v))
        }
    } else if id == 5 {
        FrameOutcome::Item(n, Message::Bitfield(Bitfield(copy_range(buf, start, end))))
    } else if id == 6 || id == 8 {
        if rest_len < 12 {
            FrameOutcome::Invalid
        } else {
            let index = read_u32(buf, start);
            let begin = read_u32(buf, start + 4);
            let length = read_u32(buf, start + 8);
            assert(index == be_u32_at(rest, 0));
            assert(begin == be_u32_at(rest, 4));
            assert(length == be_u32_at(rest, 8));
            if id == 6 {
                FrameOutcome::Item(n, Message::Request { index, begin, length })
            } else {
                FrameOutcome::Item(n, Message::Cancel { index, begin, length })
            }
        }
    } else if id == 7 {
        if rest_len < 8 {
            FrameOutcome::Invalid
        } else {
            let index = read_u32(buf, start);
            let begin = read_u32(buf, start + 4);
            assert(index == be_u32_at(rest, 0));
            assert(begin == be_u32_at(rest, 4));
            let block = copy_range(buf, start + 8, end);
            assert(block@ =~= rest.subrange(8, rest.len() as int));
            FrameOutcome::Item(n, Message::Piece { index, begin, block })
        }
    } else if id == 9 {
        if rest_len < 2 {
            FrameOutcome::Invalid
        } else {
            let port = read_u16(buf, start);
            assert(port == be_u16_at(rest, 0));
            FrameOutcome::Item(n, Message::Port(port))
        }
    } else {
        FrameOutcome::Skip(n)
    }
}

/// What reading the next message came to, as values.
pub enum DecodeOutcome {
    NeedMore,
    Invalid,
    Item(usize, Message),
}

pub open spec fn decode_matches(r: (usize, DecodeOutcome), v: (nat, DecodeView)) -> bool {
    &&& r.0 == v.0
    &&& match (r.1, v.1) {
        (DecodeOutcome::NeedMore, DecodeView::NeedMore) => true,
        (DecodeOutcome::Invalid, DecodeView::Invalid) => true,
        (DecodeOutcome::Item(n, msg), DecodeView::Item(m, w)) => n == m && msg@ == w,
        _ => false,
    }
}

proof fn lemma_decode_shift(b: Seq<u8>, off: int)
    requires
        0 <= off <= b.len(),
        spec_frame(b.subrange(off, b.len() as int)) is Skip,
    ensures
        ({
            let n = spec_frame(b.subrange(off, b.len() as int))->Skip_0;
            let tail = b.subrange(off, b.len() as int);
            0 < n <= tail.len() && tail.subrange(n as int, tail.len() as int) =~= b.subrange(off + n, b.len() as int)
        }),
{
}

/// Reads the next message from `buf`, passing over frames of unknown ids.
/// The count returned is the bytes of the frames passed over.
pub fn decode_messages(buf: &[u8]) -> (r: (usize, DecodeOutcome))
    ensures
        decode_matches(r, spec_decode(buf@)),
        r.0 <= buf@.len(),
        r.1 matches DecodeOutcome::Item(n, _) ==> n <= buf@.len(),
{
    let total = buf.len();
    let mut off: usize = 0;
    assert(buf@.subrange(0, buf@.len() as int) =~= buf@);
    loop
        invariant
            total == buf@.len(),
            off <= buf@.len(),
            ({
                let (k, v) = spec_decode(buf@.subrange(off as int, buf@.len() as int));
                spec_decode(buf@) == (
                    (off + k) as nat,
                    match v {
                        DecodeView::Item(m, w) => DecodeView::Item((off + m) as nat, w),
                        DecodeView::NeedMore => DecodeView::NeedMore,
                        DecodeView::Invalid => DecodeView::Invalid,
                    },
                )
            }),
        decreases buf@.len() - off,
    {
        let ghost tail = buf@.subrange(off as int, buf@.len() as int);
        match decode_frame_at(buf, off) {
            FrameOutcome::NeedMore => {
                return (off, DecodeOutcome::NeedMore);
            },
            FrameOutcome::Invalid => {
                return (off, DecodeOutcome::Invalid);
            },
            FrameOutcome::Item(n, m) => {
                assert(spec_frame(tail) is Item);
                assert(n <= tail.len());
                return (off, DecodeOutcome::Item(off + n, m));
            },
            FrameOutcome::Skip(n) => {
                proof {
                    lemma_decode_shift(buf@, off as int);
                }
                off = off + n;
            },
        }
    }
}

/// The message id and payload length written ahead of a message's fields;
/// `None` for keep-alive, which has neither.
pub fn message_header(message: &Message) -> (r: Option<(u8, usize)>)
    requires
        fits_frame(message@),
    ensures
        match message@ {
            MessageView::KeepAlive => r is None,
            _ => r == Some((message_id(message@), payload_bytes(message@).len() as usize)),
        },
{
    match message {
        Message::KeepAlive => None,
        Message::Choke => Some((0, 0)),
        Message::Unchoke => Some((1, 0)),
        Message::Interested => Some((2, 0)),
        Message::NotInterested => Some((3, 0)),
        Message::Have(_) => Some((4, 4)),
        Message::Bitfield(bitfield) => Some((5, bitfield.0.len())),
        Message::Request { .. } => Some((6, 12)),
        Message::Piece { block, .. } => Some((7, 8 + block.len())),
        Message::Cancel { .. } => Some((8, 12)),
        Message::Port(_) => Some((9, 2)),
    }
}

/// Appends the frame of `message`.
pub fn encode_message(message: &Message, dst: &mut Vec<u8>)
    requires
        fits_frame(message@),
    ensures
        final(dst)@ == old(dst)@ + frame_bytes(message@),
{
    match message {
        Message::KeepAlive => {
            put_u32(dst, 0);
            return;
        },
        _ => {},
    }
    let ghost p = payload_bytes(message@);
    let payload_len: u32 = match message {
        Message::Bitfield(bitfield) => bitfield.0.len() as u32,
        Message::Piece { block, .. } => (8 + block.len()) as u32,
        Message::Have(_) => 4,
        Message::Request { .. } => 12,
        Message::Cancel { .. } => 12,
        Message::Port(_) => 2,
        _ => 0,
    };
    assert(payload_len == p.len());
    put_u32(dst, payload_len + 1);
    let id: u8 = match message {
        Message::Choke => 0,
        Message::Unchoke => 1,
        Message::Interested => 2,
        Message::NotInterested => 3,
        Message::Have(_) => 4,
        Message::Bitfield(_) => 5,
        Message::Request { .. } => 6,
        Message::Piece { .. } => 7,
        Message::Cancel { .. } => 8,
        Message::Port(_) => 9,
        Message::KeepAlive => 0,
    };
    dst.push(id);
    let ghost head = old(dst)@ + u32_bytes((p.len() + 1) as u32) + seq![id];
    assert(dst@ =~= head);
    match message {
        Message::Have(index) => put_u32(dst, *index),
        Message::Bitfield(bitfield) => put_slice(dst, bitfield.0.as_slice()),
        Message::Request { index, begin, length } | Message::Cancel { index, begin, length } => {
            put_u32(dst, *index);
            put_u32(dst, *begin);
            put_u32(dst, *length);
        },
        Message::Piece { index, begin, block } => {
            put_u32(dst, *index);
            put_u32(dst, *begin);
            put_slice(dst, block.as_slice());
        },
        Message::Port(port) => put_u16(dst, *port),
        _ => {},
    }
    assert(dst@ =~= head + p);
}

/// Where the codec stands: waiting for the handshake, or reading messages.
pub enum CodecState {
    HandshakePending {
        /// The protocol string's length, remembered once its byte has been
        /// read.
        pstrlen: Option<u8>,
        /// Whether the info hash has already been handed out on its own.
        info_hash_sent: bool,
    },
    Normal,
}

/// Frames the peer wire protocol: one handshake, then length-prefixed
/// messages.
pub struct WireCodec {
    pub state: CodecState,
}

impl WireCodec {
    /// A codec for a fresh connection, expecting the handshake.
    pub fn new() -> (c: Self)
        ensures
            c.state == (CodecState::HandshakePending { pstrlen: None, info_hash_sent: false }),
    {
        WireCodec { state: CodecState::HandshakePending { pstrlen: None, info_hash_sent: false } }
    }

    /// A codec past the handshake, reading messages.
    pub fn after_handshake() -> (c: Self)
        ensures
            c.state == CodecState::Normal,
    {
        WireCodec { state: CodecState::Normal }
    }
}

impl Default for WireCodec {
    fn default() -> (c: Self)
        ensures
            c.state == (CodecState::HandshakePending { pstrlen: None, info_hash_sent: false }),
    {
        Self::new()
    }
}

/// The bytes a handshake is written as.
pub open spec fn handshake_bytes(h: Handshake) -> Seq<u8> {
    seq![h.pstrlen] + encode_utf8(h.pstr@) + h.reserved@ + h.info_hash@ + h.peer_id@
}

/// The protocol-string length a pending handshake is read with: the one
/// remembered from an earlier call, or else the first byte.
pub open spec fn pending_len(pstrlen: Option<u8>, b: Seq<u8>) -> int {
    match pstrlen {
        Some(l) => l as int,
        None => b[0] as int,
    }
}

/// Whether the message read equals the view expected.
pub open spec fn item_is_message(r: Result<Option<WireItem>, CodecError>, v: MessageView) -> bool {
    r matches Ok(Some(WireItem::Message(m))) && m@ == v
}

/// Drops the first `n` bytes of `v`.
fn drop_front(v: &mut Vec<u8>, n: usize)
    requires
        n <= old(v)@.len(),
    ensures
        final(v)@ == old(v)@.subrange(n as int, old(v)@.len() as int),
{
    let tail = v.split_off(n);
    *v = tail;
}

/// Whether `b[start..start + 19]` is the protocol string.
fn is_protocol_at(b: &[u8], start: usize, len: usize) -> (r: bool)
    requires
        start + len <= b.len(),
    ensures
        r == (b@.subrange(start as int, start + len) == protocol_bytes()),
{
    let p: [u8; 19] = [66, 105, 116, 84, 111, 114, 114, 101, 110, 116, 32, 112, 114, 111, 116, 111, 99, 111, 108];
    assert(p@ =~= protocol_bytes());
    if len != 19 {
        return false;
    }
    let mut k: usize = 0;
    while k < 19
        invariant
            k <= 19,
            len == 19,
            start + len <= b.len(),
            p@ == protocol_bytes(),
            forall|j: int| 0 <= j < k ==> b@[start + j] == p@[j],
        decreases 19 - k,
    {
        if b[start + k] != p[k] {
            assert(b@.subrange(start as int, start + len)[k as int] != protocol_bytes()[k as int]);
            return false;
        }
        k = k + 1;
    }
    assert(b@.subrange(start as int, start + len) =~= protocol_bytes());
    true
}

fn array8_at(b: &[u8], start: usize) -> (r: [u8; 8])
    requires
        start + 8 <= b.len(),
    ensures
        r@ == b@.subrange(start as int, start + 8),
{
    let mut r = [0u8; 8];
    let mut k: usize = 0;
    while k < 8
        invariant
            k <= 8,
            start + 8 <= b.len(),
            r@.len() == 8,
            forall|j: int| 0 <= j < k ==> r@[j] == b@[start + j],
        decreases 8 - k,
    {
        r[k] = b[start + k];
        k = k + 1;
    }
    assert(r@ =~= b@.subrange(start as int, start + 8));
    r
}

fn array20_at(b: &[u8], start: usize) -> (r: [u8; 20])
    requires
        start + 20 <= b.len(),
    ensures
        r@ == b@.subrange(start as int, start + 20),
{
    let mut r = [0u8; 20];
    let mut k: usize = 0;
    while k < 20
        invariant
            k <= 20,
            start + 20 <= b.len(),
            r@.len() == 20,
            forall|j: int| 0 <= j < k ==> r@[j] == b@[start + j],
        decreases 20 - k,
    {
        r[k] = b[start + k];
        k = k + 1;
    }
    assert(r@ =~= b@.subrange(start as int, start + 20));
    r
}

impl WireCodec {
    /// Reads the next item from the front of `src`, taking its bytes out.
    ///
    /// Before the handshake: nothing until the handshake's info hash is in,
    /// which is handed out on its own first, then the whole handshake once it
    /// is in; a protocol string other than "BitTorrent protocol" is refused,
    /// whatever its bytes. After it: the next message, keep-alives included,
    /// with frames of unknown ids passed over and their bytes taken out.
    /// `Ok(None)` means more bytes are needed.
    pub fn decode(&mut self, src: &mut Vec<u8>) -> (r: Result<Option<WireItem>, CodecError>)
        ensures
            match old(self).state {
                CodecState::Normal => {
                    let (k, v) = spec_decode(old(src)@);
                    &&& final(self).state == CodecState::Normal
                    &&& match v {
                        DecodeView::NeedMore => r matches Ok(None) && final(src)@ == old(src)@.subrange(k as int, old(src)@.len() as int),
                        DecodeView::Invalid => r matches Err(e) && e.kind == ErrorKind::InvalidData
                            && final(src)@ == old(src)@.subrange(k as int, old(src)@.len() as int),
                        DecodeView::Item(n, m) => item_is_message(r, m)
                            && final(src)@ == old(src)@.subrange(n as int, old(src)@.len() as int),
                    }
                },
                CodecState::HandshakePending { pstrlen, info_hash_sent } => {
                    let b = old(src)@;
                    if b.len() == 0 {
                        r matches Ok(None) && final(src)@ == b && final(self).state == old(self).state
                    } else {
                        let l = pending_len(pstrlen, b);
                        let pending = CodecState::HandshakePending { pstrlen: Some(l as u8), info_hash_sent };
                        if b.len() < 1 + l {
                            r matches Ok(None) && final(src)@ == b && final(self).state == pending
                        } else if b.subrange(1, 1 + l) != protocol_bytes() {
                            r matches Err(e) && e.kind == ErrorKind::InvalidData && final(src)@ == b
                                && final(self).state == pending
                        } else if b.len() < 1 + l + 28 {
                            r matches Ok(None) && final(src)@ == b && final(self).state == pending
                        } else if !info_hash_sent {
                            &&& r matches Ok(Some(WireItem::HandshakePartial { info_hash }))
                            &&& info_hash@ == b.subrange(1 + l + 8, 1 + l + 28)
                            &&& final(src)@ == b
                            &&& final(self).state == (CodecState::HandshakePending {
                                pstrlen: Some(l as u8),
                                info_hash_sent: true,
                            })
                        } else if b.len() < 1 + l + 48 {
                            r matches Ok(None) && final(src)@ == b && final(self).state == pending
                        } else {
                            &&& r matches Ok(Some(WireItem::Handshake(h)))
                            &&& h.pstrlen == l
                            &&& h.pstr@ == "BitTorrent protocol"@
                            &&& h.reserved@ == b.subrange(1 + l, 1 + l + 8)
                            &&& h.info_hash@ == b.subrange(1 + l + 8, 1 + l + 28)
                            &&& h.peer_id@ == b.subrange(1 + l + 28, 1 + l + 48)
                            &&& final(src)@ == b.subrange(1 + l + 48, b.len() as int)
                            &&& final(self).state == CodecState::Normal
                        }
                    }
                },
            },
    {
        match self.state {
            CodecState::Normal => {
                let (skipped, outcome) = decode_messages(src.as_slice());
                match outcome {
                    DecodeOutcome::Item(n, m) => {
                        drop_front(src, n);
                        Ok(Some(WireItem::Message(m)))
                    },
                    DecodeOutcome::NeedMore => {
                        drop_front(src, skipped);
                        Ok(None)
                    },
                    DecodeOutcome::Invalid => {
                        drop_front(src, skipped);
                        Err(CodecError { kind: ErrorKind::InvalidData })
                    },
                }
            },
            CodecState::HandshakePending { pstrlen, info_hash_sent } => {
                if src.len() < 1 {
                    return Ok(None);
                }
                let len: u8 = match pstrlen {
                    Some(l) => l,
                    None => src[0],
                };
                self.state = CodecState::HandshakePending { pstrlen: Some(len), info_hash_sent };
                let base: usize = 1 + len as usize;
                if src.len() < base {
                    return Ok(None);
                }
                if !is_protocol_at(src.as_slice(), 1, len as usize) {
                    return Err(CodecError { kind: ErrorKind::InvalidData });
                }
                if src.len() < base + 28 {
                    return Ok(None);
                }
                if !info_hash_sent {
                    let info_hash = array20_at(src.as_slice(), base + 8);
                    self.state = CodecState::HandshakePending { pstrlen: Some(len), info_hash_sent: true };
                    return Ok(Some(WireItem::HandshakePartial { info_hash }));
                }
                if src.len() < base + 48 {
                    return Ok(None);
                }
                let reserved = array8_at(src.as_slice(), base);
                let info_hash = array20_at(src.as_slice(), base + 8);
                let peer_id = array20_at(src.as_slice(), base + 28);
                let pstr = "BitTorrent protocol".to_owned();
                drop_front(src, base + 48);
                self.state = CodecState::Normal;
                Ok(Some(WireItem::Handshake(Handshake { pstrlen: len, pstr, reserved, info_hash, peer_id })))
            },
        }
    }

    /// Appends the bytes of `item` to `dst`. A partial handshake only ever
    /// comes out of the decoder, so it is refused and nothing is written.
    pub fn encode(&mut self, item: WireItem, dst: &mut Vec<u8>) -> (r: Result<(), CodecError>)
        requires
            item matches WireItem::Message(m) ==> fits_frame(m@),
        ensures
            final(self).state == old(self).state,
            match item {
                WireItem::Handshake(h) => r is Ok && final(dst)@ == old(dst)@ + handshake_bytes(h),
                WireItem::Message(m) => r is Ok && final(dst)@ == old(dst)@ + frame_bytes(m@),
                WireItem::HandshakePartial { .. } => r matches Err(e) && e.kind == ErrorKind::InvalidInput
                    && final(dst)@ == old(dst)@,
            },
    {
        match item {
            WireItem::Handshake(hs) => {
                dst.push(hs.pstrlen);
                put_slice(dst, hs.pstr.as_str().as_bytes());
                put_slice(dst, hs.reserved.as_slice());
                put_slice(dst, hs.info_hash.as_slice());
                put_slice(dst, hs.peer_id.as_slice());
                assert(dst@ =~= old(dst)@ + handshake_bytes(hs));
                Ok(())
            },
            WireItem::Message(msg) => {
                encode_message(&msg, dst);
                Ok(())
            },
            WireItem::HandshakePartial { .. } => Err(CodecError { kind: ErrorKind::InvalidInput }),
        }
    }
}

proof fn lemma_u32_at(s: Seq<u8>, i: int, x: u32)
    requires
        0 <= i,
        i + 4 <= s.len(),
        s.subrange(i, i + 4) == u32_bytes(x),
    ensures
        be_u32_at(s, i) == x,
{
    lemma_u32_roundtrip(x);
    assert(s[i] == u32_bytes(x)[0]);
    assert(s[i + 1] == u32_bytes(x)[1]);
    assert(s[i + 2] == u32_bytes(x)[2]);
    assert(s[i + 3] == u32_bytes(x)[3]);
}

/// Every message reads back as itself: decoding the frame a message is
/// written as, with anything at all after it, gives that message and
/// consumes exactly its frame.
pub proof fn law_frame_roundtrip(m: MessageView, rest: Seq<u8>)
    requires
        fits_frame(m),
    ensures
        spec_decode(frame_bytes(m) + rest) == (0nat, DecodeView::Item(frame_bytes(m).len(), m)),
{
    let b = frame_bytes(m) + rest;
    let p = payload_bytes(m);
    match m {
        MessageView::KeepAlive => {
            assert(b.subrange(0, 4) =~= u32_bytes(0));
            lemma_u32_at(b, 0, 0);
        },
        _ => {
            let len = (p.len() + 1) as u32;
            assert(b.subrange(0, 4) =~= u32_bytes(len));
            lemma_u32_at(b, 0, len);
            assert(b[4] == message_id(m));
            let r = b.subrange(5, 4 + len);
            assert(r =~= p);
            match m {
                MessageView::Have(i) => {
                    assert(r.subrange(0, 4) =~= u32_bytes(i));
                    lemma_u32_at(r, 0, i);
                },
                MessageView::Request { index, begin, length } => {
                    assert(r.subrange(0, 4) =~= u32_bytes(index));
                    assert(r.subrange(4, 8) =~= u32_bytes(begin));
                    assert(r.subrange(8, 12) =~= u32_bytes(length));
                    lemma_u32_at(r, 0, index);
                    lemma_u32_at(r, 4, begin);
                    lemma_u32_at(r, 8, length);
                },
                MessageView::Cancel { index, begin, length } => {
                    assert(r.subrange(0, 4) =~= u32_bytes(index));
                    assert(r.subrange(4, 8) =~= u32_bytes(begin));
                    assert(r.subrange(8, 12) =~= u32_bytes(length));
                    lemma_u32_at(r, 0, index);
                    lemma_u32_at(r, 4, begin);
                    lemma_u32_at(r, 8, length);
                },
                MessageView::Piece { index, begin, block } => {
                    assert(r.subrange(0, 4) =~= u32_bytes(index));
                    assert(r.subrange(4, 8) =~= u32_bytes(begin));
                    lemma_u32_at(r, 0, index);
                    lemma_u32_at(r, 4, begin);
                    assert(r.subrange(8, r.len() as int) =~= block);
                },
                MessageView::Port(port) => {
                    lemma_u16_roundtrip(port);
                    assert(r[0] == u16_bytes(port)[0]);
                    assert(r[1] == u16_bytes(port)[1]);
                },
                _ => {},
            }
        },
    }
}

/// Two messages written back to back read back in order: the first read
/// leaves exactly the second frame (and whatever follows it).
pub proof fn law_frames_read_in_order(first: MessageView, second: MessageView, rest: Seq<u8>)
    requires
        fits_frame(first),
        fits_frame(second),
    ensures
        ({
            let b = frame_bytes(first) + frame_bytes(second) + rest;
            let n = frame_bytes(first).len();
            &&& spec_decode(b) == (0nat, DecodeView::Item(n, first))
            &&& spec_decode(b.subrange(n as int, b.len() as int)) == (0nat, DecodeView::Item(frame_bytes(second).len(), second))
        }),
{
    let b = frame_bytes(first) + frame_bytes(second) + rest;
    let n = frame_bytes(first).len();
    assert(b =~= frame_bytes(first) + (frame_bytes(second) + rest));
    law_frame_roundtrip(first, frame_bytes(second) + rest);
    assert(b.subrange(n as int, b.len() as int) =~= frame_bytes(second) + rest);
    law_frame_roundtrip(second, rest);
}

/// `x` in base 256, most significant digit first: the order the wire
/// protocol writes every number in.
pub open spec fn base256_digits(x: u32) -> Seq<u8> {
    seq![(x / 0x1000000) as u8, ((x / 0x10000) % 0x100) as u8, ((x / 0x100) % 0x100) as u8, (x % 0x100) as u8]
}

proof fn lemma_u32_bytes_digits(x: u32)
    ensures
        u32_bytes(x) == base256_digits(x),
{
    assert((x >> 24u32) as u8 == (x / 0x1000000u32) as u8) by (bit_vector);
    assert((x >> 16u32) as u8 == ((x / 0x10000u32) % 0x100u32) as u8) by (bit_vector);
    assert((x >> 8u32) as u8 == ((x / 0x100u32) % 0x100u32) as u8) by (bit_vector);
    assert(x as u8 == (x % 0x100u32) as u8) by (bit_vector);
    assert(u32_bytes(x) =~= base256_digits(x));
}

/// A request and a cancel for the same block are written alike: a length of
/// 13, the id (6 for a request, 8 for a cancel), then the piece index, the
/// offset and the length, each as four big-endian bytes, in that order. Read
/// back, each such frame gives that very message, index, offset and length
/// in their places.
pub proof fn law_request_and_cancel_layout(index: u32, begin: u32, length: u32)
    ensures
        frame_bytes(MessageView::Request { index, begin, length }) == seq![0u8, 0u8, 0u8, 13u8, 6u8] + base256_digits(
            index,
        ) + base256_digits(begin) + base256_digits(length),
        frame_bytes(MessageView::Cancel { index, begin, length }) == frame_bytes(
            MessageView::Request { index, begin, length },
        ).update(4, 8u8),
        spec_frame(seq![0u8, 0u8, 0u8, 13u8, 6u8] + base256_digits(index) + base256_digits(begin) + base256_digits(
            length,
        )) == FrameView::Item(17, MessageView::Request { index, begin, length }),
        spec_frame(seq![0u8, 0u8, 0u8, 13u8, 8u8] + base256_digits(index) + base256_digits(begin) + base256_digits(
            length,
        )) == FrameView::Item(17, MessageView::Cancel { index, begin, length }),
{
    lemma_u32_bytes_digits(index);
    lemma_u32_bytes_digits(begin);
    lemma_u32_bytes_digits(length);
    lemma_u32_bytes_digits(13);
    assert(base256_digits(13) =~= seq![0u8, 0u8, 0u8, 13u8]);
    let req = MessageView::Request { index, begin, length };
    let can = MessageView::Cancel { index, begin, length };
    assert(frame_bytes(req) =~= seq![0u8, 0u8, 0u8, 13u8, 6u8] + base256_digits(index) + base256_digits(begin)
        + base256_digits(length));
    assert(frame_bytes(can) =~= frame_bytes(req).update(4, 8u8));
    let rb = frame_bytes(req);
    let cb = frame_bytes(can);
    assert(cb =~= seq![0u8, 0u8, 0u8, 13u8, 8u8] + base256_digits(index) + base256_digits(begin) + base256_digits(
        length,
    ));
    let body_r = rb.subrange(5, 17);
    let body_c = cb.subrange(5, 17);
    assert(body_r =~= u32_bytes(index) + u32_bytes(begin) + u32_bytes(length));
    assert(body_c =~= u32_bytes(index) + u32_bytes(begin) + u32_bytes(length));
    assert(rb.subrange(0, 4) =~= u32_bytes(13));
    assert(cb.subrange(0, 4) =~= u32_bytes(13));
    lemma_u32_at(rb, 0, 13);
    lemma_u32_at(cb, 0, 13);
    assert(body_r.subrange(0, 4) =~= u32_bytes(index));
    assert(body_r.subrange(4, 8) =~= u32_bytes(begin));
    assert(body_r.subrange(8, 12) =~= u32_bytes(length));
    lemma_u32_at(body_r, 0, index);
    lemma_u32_at(body_r, 4, begin);
    lemma_u32_at(body_r, 8, length);
    assert(body_c =~= body_r);
}

/// A handshake is written as its protocol-string length, the protocol
/// string, the 8 reserved bytes, the info hash and then the peer id; for the
/// standard protocol string, the info hash is bytes 28 to 48 and the peer id
/// bytes 48 to 68.
pub proof fn law_handshake_layout(h: Handshake)
    ensures
        ({
            let b = handshake_bytes(h);
            let n = encode_utf8(h.pstr@).len() as int;
            &&& b.len() == n + 49
            &&& b[0] == h.pstrlen
            &&& b.subrange(1, n + 1) == encode_utf8(h.pstr@)
            &&& b.subrange(n + 1, n + 9) == h.reserved@
            &&& b.subrange(n + 9, n + 29) == h.info_hash@
            &&& b.subrange(n + 29, n + 49) == h.peer_id@
        }),
        encode_utf8(h.pstr@) == protocol_bytes() ==> handshake_bytes(h).len() == 68 && handshake_bytes(h).subrange(28, 48)
            == h.info_hash@ && handshake_bytes(h).subrange(48, 68) == h.peer_id@,
{
    let b = handshake_bytes(h);
    let p = encode_utf8(h.pstr@);
    let n = p.len() as int;
    assert(b.subrange(1, n + 1) =~= p);
    assert(b.subrange(n + 1, n + 9) =~= h.reserved@);
    assert(b.subrange(n + 9, n + 29) =~= h.info_hash@);
    assert(b.subrange(n + 29, n + 49) =~= h.peer_id@);
}

/// The other messages are written as the protocol lays them out, and read
/// back from those very bytes: `have` as a length of 5, id 4 and the piece
/// index; `piece` as its length, id 7, the index, the offset and the block;
/// `port` as a length of 3, id 9 and the port in two big-endian bytes; the
/// four state messages as a length of 1 and their id, 0 to 3; keep-alive as
/// a length of 0.
pub proof fn law_message_layouts(index: u32, begin: u32, block: Seq<u8>, port: u16)
    requires
        block.len() + 9 <= u32::MAX,
    ensures
        frame_bytes(MessageView::Have(index)) == seq![0u8, 0u8, 0u8, 5u8, 4u8] + base256_digits(index),
        spec_frame(seq![0u8, 0u8, 0u8, 5u8, 4u8] + base256_digits(index)) == FrameView::Item(9, MessageView::Have(index)),
        frame_bytes(MessageView::Piece { index, begin, block }) == base256_digits((block.len() + 9) as u32) + seq![7u8]
            + base256_digits(index) + base256_digits(begin) + block,
        spec_frame(base256_digits((block.len() + 9) as u32) + seq![7u8] + base256_digits(index) + base256_digits(begin)
            + block) == FrameView::Item(block.len() + 13, MessageView::Piece { index, begin, block }),
        frame_bytes(MessageView::Port(port)) == seq![0u8, 0u8, 0u8, 3u8, 9u8, (port / 0x100) as u8, (port % 0x100) as u8],
        spec_frame(seq![0u8, 0u8, 0u8, 3u8, 9u8, (port / 0x100) as u8, (port % 0x100) as u8]) == FrameView::Item(
            7,
            MessageView::Port(port),
        ),
        frame_bytes(MessageView::Choke) == seq![0u8, 0u8, 0u8, 1u8, 0u8],
        frame_bytes(MessageView::Unchoke) == seq![0u8, 0u8, 0u8, 1u8, 1u8],
        frame_bytes(MessageView::Interested) == seq![0u8, 0u8, 0u8, 1u8, 2u8],
        frame_bytes(MessageView::NotInterested) == seq![0u8, 0u8, 0u8, 1u8, 3u8],
        frame_bytes(MessageView::KeepAlive) == seq![0u8, 0u8, 0u8, 0u8],
{
    lemma_u32_bytes_digits(index);
    lemma_u32_bytes_digits(begin);
    lemma_u32_bytes_digits(5);
    lemma_u32_bytes_digits(3);
    lemma_u32_bytes_digits(1);
    lemma_u32_bytes_digits(0);
    let plen = (block.len() + 9) as u32;
    lemma_u32_bytes_digits(plen);
    assert(base256_digits(5) =~= seq![0u8, 0u8, 0u8, 5u8]);
    assert(base256_digits(3) =~= seq![0u8, 0u8, 0u8, 3u8]);
    assert(base256_digits(1) =~= seq![0u8, 0u8, 0u8, 1u8]);
    assert(base256_digits(0) =~= seq![0u8, 0u8, 0u8, 0u8]);
    assert((port >> 8u16) as u8 == (port / 0x100u16) as u8) by (bit_vector);
    assert(port as u8 == (port % 0x100u16) as u8) by (bit_vector);
    let have = MessageView::Have(index);
    let piece = MessageView::Piece { index, begin, block };
    let pm = MessageView::Port(port);
    assert(frame_bytes(have) =~= seq![0u8, 0u8, 0u8, 5u8, 4u8] + base256_digits(index));
    assert(frame_bytes(piece) =~= base256_digits(plen) + seq![7u8] + base256_digits(index) + base256_digits(begin)
        + block);
    assert(frame_bytes(pm) =~= seq![0u8, 0u8, 0u8, 3u8, 9u8, (port / 0x100) as u8, (port % 0x100) as u8]);
    assert(frame_bytes(MessageView::Choke) =~= seq![0u8, 0u8, 0u8, 1u8, 0u8]);
    assert(frame_bytes(MessageView::Unchoke) =~= seq![0u8, 0u8, 0u8, 1u8, 1u8]);
    assert(frame_bytes(MessageView::Interested) =~= seq![0u8, 0u8, 0u8, 1u8, 2u8]);
    assert(frame_bytes(MessageView::NotInterested) =~= seq![0u8, 0u8, 0u8, 1u8, 3u8]);
    assert(frame_bytes(MessageView::KeepAlive) =~= seq![0u8, 0u8, 0u8, 0u8]);
    // Each frame reads back as its message.
    let hb = frame_bytes(have);
    assert(hb.subrange(0, 4) =~= u32_bytes(5));
    lemma_u32_at(hb, 0, 5);
    assert(hb.subrange(5, 9).subrange(0, 4) =~= u32_bytes(index));
    lemma_u32_at(hb.subrange(5, 9), 0, index);
    let pb = frame_bytes(piece);
    assert(pb.subrange(0, 4) =~= u32_bytes(plen));
    lemma_u32_at(pb, 0, plen);
    let pr = pb.subrange(5, 4 + plen);
    assert(pr.subrange(0, 4) =~= u32_bytes(index));
    assert(pr.subrange(4, 8) =~= u32_bytes(begin));
    lemma_u32_at(pr, 0, index);
    lemma_u32_at(pr, 4, begin);
    assert(pr.subrange(8, pr.len() as int) =~= block);
    let ob = frame_bytes(pm);
    assert(ob.subrange(0, 4) =~= u32_bytes(3));
    lemma_u32_at(ob, 0, 3);
    lemma_u16_roundtrip(port);
    let orr = ob.subrange(5, 7);
    assert(orr =~= u16_bytes(port));
}

} // verus!
