use vstd::prelude::*;

use crate::bencode::bytes_eq;
use crate::codec::protocol_bytes;
use crate::messages::{spec_from_bytes, Message, MessageError, MessageView};
use crate::wire_protocol::{Bitfield, Handshake, Message as WireMessage, WireItem};

verus! {

broadcast use vstd::std_specs::vec::group_vec_axioms, vstd::seq::group_seq_axioms;

/// The state of a simple peer session: who is choking whom, and who is
/// interested.
pub struct PeerSession {
    pub im_choking: bool,
    pub im_interested: bool,
    pub peer_choking: bool,
    pub peer_interested: bool,
    /// What the peer holds, once recorded.
    pub bitfield: Option<Vec<u8>>,
}

/// What a session does about a message.
#[derive(Debug, PartialEq, Eq, Structural)]
pub enum SessionAction {
    Nothing,
    /// Tell the peer we are interested.
    SendInterested,
    /// Count these bytes as downloaded.
    Downloaded(u64),
}

impl PeerSession {
    /// A session before anything was said: nobody choking, nobody
    /// interested, no bitfield.
    pub fn new() -> (r: Self)
        ensures
            !r.im_choking && !r.im_interested && !r.peer_choking && !r.peer_interested,
            r.bitfield is None,
    {
        PeerSession {
            im_choking: false,
            im_interested: false,
            peer_choking: false,
            peer_interested: false,
            bitfield: None,
        }
    }

    /// Updates the session for a message from the peer. A bitfield makes us
    /// interested and says so; a block counts as downloaded; choking and
    /// interest are recorded; the rest changes nothing.
    pub fn handle_message(&mut self, msg: Message) -> (r: SessionAction)
        ensures
            final(self).bitfield == old(self).bitfield,
            final(self).im_choking == old(self).im_choking,
            final(self).peer_choking == (match msg@ {
                MessageView::Choke => true,
                MessageView::Unchoke => false,
                _ => old(self).peer_choking,
            }),
            final(self).peer_interested == (match msg@ {
                MessageView::Interested => true,
                MessageView::NotInterested => false,
                _ => old(self).peer_interested,
            }),
            final(self).im_interested == (msg@ is Bitfield || old(self).im_interested),
            r == (match msg@ {
                MessageView::Bitfield(_) => SessionAction::SendInterested,
                MessageView::Piece { data, .. } => SessionAction::Downloaded(data.len() as u64),
                _ => SessionAction::Nothing,
            }),
    {
        match msg {
            Message::Choke => {
                self.peer_choking = true;
                SessionAction::Nothing
            },
            Message::Unchoke => {
                self.peer_choking = false;
                SessionAction::Nothing
            },
            Message::Interested => {
                self.peer_interested = true;
                SessionAction::Nothing
            },
            Message::NotInterested => {
                self.peer_interested = false;
                SessionAction::Nothing
            },
            Message::Bitfield(_) => {
                self.im_interested = true;
                SessionAction::SendInterested
            },
            Message::Piece { index: _, begin: _, data } => SessionAction::Downloaded(data.len() as u64),
            _ => SessionAction::Nothing,
        }
    }
}

/// Reads one length-prefixed frame's body: an empty one is a keep-alive and
/// carries no message; otherwise the first byte is the id and the rest the
/// payload.
pub fn read_frame(frame: &[u8]) -> (r: Result<Option<Message>, MessageError>)
    ensures
        frame@.len() == 0 ==> r matches Ok(None),
        frame@.len() > 0 ==> match spec_from_bytes(frame@[0], frame@.subrange(1, frame@.len() as int)) {
            Some(m) => r matches Ok(Some(x)) && x@ == m,
            None => r == Err::<Option<Message>, MessageError>(
                MessageError::Unreadable { id: frame@[0], payload_len: (frame@.len() - 1) as usize },
            ),
        },
{
    if frame.len() == 0 {
        return Ok(None);
    }
    let payload = crate::wire_protocol::copy_range(frame, 1, frame.len());
    match Message::from_bytes(frame[0], payload.as_slice()) {
        Ok(m) => Ok(Some(m)),
        Err(e) => Err(e),
    }
}

/// The 68 bytes of a handshake: the protocol string's length and the string,
/// eight reserved zero bytes, the info hash and the peer id.
pub open spec fn spec_handshake(info_hash: Seq<u8>, peer_id: Seq<u8>) -> Seq<u8> {
    seq![19u8] + protocol_bytes() + Seq::new(8, |i: int| 0u8) + info_hash + peer_id
}

/// The handshake we send.
pub fn handshake_message(info_hash: &[u8; 20], peer_id: &[u8; 20]) -> (r: Vec<u8>)
    ensures
        r@ == spec_handshake(info_hash@, peer_id@),
{
    let p: [u8; 19] = [66, 105, 116, 84, 111, 114, 114, 101, 110, 116, 32, 112, 114, 111, 116, 111, 99, 111, 108];
    assert(p@ =~= protocol_bytes());
    let mut r: Vec<u8> = Vec::new();
    r.push(19);
    crate::wire_protocol::put_slice(&mut r, p.as_slice());
    let mut k: usize = 0;
    while k < 8
        invariant
            k <= 8,
            r@ == seq![19u8] + protocol_bytes() + Seq::new(k as nat, |i: int| 0u8),
        decreases 8 - k,
    {
        r.push(0);
        k = k + 1;
        assert(r@ =~= seq![19u8] + protocol_bytes() + Seq::new(k as nat, |i: int| 0u8));
    }
    crate::wire_protocol::put_slice(&mut r, info_hash.as_slice());
    crate::wire_protocol::put_slice(&mut r, peer_id.as_slice());
    r
}

/// Why a handshake was refused.
#[derive(Clone, Copy, Debug, PartialEq, Eq, Structural)]
pub enum HandshakeError {
    /// The reply does not speak the BitTorrent protocol.
    BadProtocol,
    /// The reply is for another torrent.
    InfoHashMismatch,
}

/// Checks the handshake a peer answered with: it must name the protocol,
/// then the torrent we asked for.
pub fn check_handshake_reply(reply: &[u8], info_hash: &[u8; 20]) -> (r: Result<(), HandshakeError>)
    requires
        reply@.len() == 68,
    ensures
        (reply@[0] != 19 || reply@.subrange(1, 20) != protocol_bytes()) ==> r == Err::<(), HandshakeError>(
            HandshakeError::BadProtocol,
        ),
        (reply@[0] == 19 && reply@.subrange(1, 20) == protocol_bytes() && reply@.subrange(28, 48) != info_hash@)
            ==> r == Err::<(), HandshakeError>(HandshakeError::InfoHashMismatch),
        (reply@[0] == 19 && reply@.subrange(1, 20) == protocol_bytes() && reply@.subrange(28, 48) == info_hash@)
            ==> r is Ok,
{
    let p: [u8; 19] = [66, 105, 116, 84, 111, 114, 114, 101, 110, 116, 32, 112, 114, 111, 116, 111, 99, 111, 108];
    assert(p@ =~= protocol_bytes());
    let name = crate::wire_protocol::copy_range(reply, 1, 20);
    if reply[0] != 19 || !bytes_eq(name.as_slice(), p.as_slice()) {
        return Err(HandshakeError::BadProtocol);
    }
    let hash = crate::wire_protocol::copy_range(reply, 28, 48);
    if !bytes_eq(hash.as_slice(), info_hash.as_slice()) {
        return Err(HandshakeError::InfoHashMismatch);
    }
    Ok(())
}

/// Where a handshake stands after one item from the peer.
#[derive(Debug)]
pub enum HandshakeStep {
    /// Wait for the next item.
    Continue,
    /// The peer named our torrent: answer with our handshake, then wait.
    Reply,
    /// The peer's handshake is in; this is its id.
    Done { peer_id: [u8; 20] },
    /// The peer named another torrent.
    InfoHashMismatch,
    /// Anything else, or nothing, arrived.
    Unexpected,
}

/// One step of a handshake. When we dialled, our handshake went first and
/// the peer's info hash only has to agree; when the peer dialled, we answer
/// once it names a torrent we have. Either way the peer's full handshake
/// completes it, and anything else ends it.
pub fn handshake_step(outbound: bool, info_hash: &[u8; 20], item: &WireItem) -> (r: HandshakeStep)
    ensures
        match item {
            WireItem::HandshakePartial { info_hash: theirs } => if theirs@ != info_hash@ {
                r == HandshakeStep::InfoHashMismatch
            } else if outbound {
                r == HandshakeStep::Continue
            } else {
                r == HandshakeStep::Reply
            },
            WireItem::Handshake(h) => r == (HandshakeStep::Done { peer_id: h.peer_id }),
            _ => r == HandshakeStep::Unexpected,
        },
{
    match item {
        WireItem::HandshakePartial { info_hash: theirs } => {
            if !bytes_eq(theirs.as_slice(), info_hash.as_slice()) {
                HandshakeStep::InfoHashMismatch
            } else if outbound {
                HandshakeStep::Continue
            } else {
                HandshakeStep::Reply
            }
        },
        WireItem::Handshake(h) => HandshakeStep::Done { peer_id: h.peer_id },
        _ => HandshakeStep::Unexpected,
    }
}

/// The handshake we send for a torrent.
pub fn our_handshake(info_hash: &[u8; 20], peer_id: &[u8; 20]) -> (r: Handshake)
    ensures
        r.pstrlen == 19,
        r.pstr@ == "BitTorrent protocol"@,
        r.reserved@ == Seq::new(8, |i: int| 0u8),
        r.info_hash == *info_hash,
        r.peer_id == *peer_id,
{
    let r = Handshake {
        pstrlen: 19,
        pstr: "BitTorrent protocol".to_owned(),
        reserved: [0; 8],
        info_hash: *info_hash,
        peer_id: *peer_id,
    };
    assert(r.reserved@ =~= Seq::new(8, |i: int| 0u8));
    r
}

/// The first thing after a handshake must be the peer's bitfield.
pub fn first_bitfield(item: WireItem) -> (r: Option<Bitfield>)
    ensures
        match item {
            WireItem::Message(WireMessage::Bitfield(b)) => r matches Some(x) && x@ == b@,
            _ => r is None,
        },
{
    match item {
        WireItem::Message(WireMessage::Bitfield(b)) => Some(b),
        _ => None,
    }
}

/// How long a peer has, once the handshakes are done and our bitfield is
/// sent, to send its own, in seconds.
pub const BITFIELD_WAIT_SECS: u64 = 30;

/// What waiting for the peer's first message came to.
pub enum BitfieldWait {
    /// Nothing came in time.
    TimedOut,
    /// The connection closed or broke first.
    Ended,
    /// This came first.
    Item(WireItem),
}

/// Why a connection ends before the peer's bitfield.
#[derive(Clone, Copy, Debug, PartialEq, Eq, Structural)]
pub enum FirstItemError {
    Timeout,
    Disconnected,
}

/// The peer's bitfield, which must be the first thing it sends and must come
/// within [`BITFIELD_WAIT_SECS`]. Silence is a timeout; a closed connection,
/// or anything else first, ends the connection.
pub fn first_item(wait: BitfieldWait) -> (r: Result<Bitfield, FirstItemError>)
    ensures
        match wait {
            BitfieldWait::TimedOut => r == Err::<Bitfield, FirstItemError>(FirstItemError::Timeout),
            BitfieldWait::Ended => r == Err::<Bitfield, FirstItemError>(FirstItemError::Disconnected),
            BitfieldWait::Item(WireItem::Message(WireMessage::Bitfield(b))) => r matches Ok(x) && x@ == b@,
            BitfieldWait::Item(_) => r == Err::<Bitfield, FirstItemError>(FirstItemError::Disconnected),
        },
{
    match wait {
        BitfieldWait::TimedOut => Err(FirstItemError::Timeout),
        BitfieldWait::Ended => Err(FirstItemError::Disconnected),
        BitfieldWait::Item(item) => match first_bitfield(item) {
            Some(b) => Ok(b),
            None => Err(FirstItemError::Disconnected),
        },
    }
}

} // verus!
