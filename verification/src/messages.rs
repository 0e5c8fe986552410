use vstd::prelude::*;

use crate::wire_protocol::{be_u32_at, copy_range, lemma_u32_roundtrip, put_slice, put_u32, read_u32, u32_bytes};

verus! {

broadcast use vstd::std_specs::vec::group_vec_axioms, vstd::seq::group_seq_axioms;

/// A peer message in its simplest form: a bitfield and a block are plain
/// byte vectors.
#[derive(Debug)]
pub enum Message {
    KeepAlive,
    Choke,
    Unchoke,
    Interested,
    NotInterested,
    Have(u32),
    Bitfield(Vec<u8>),
    Request { index: u32, begin: u32, length: u32 },
    Piece { index: u32, begin: u32, data: Vec<u8> },
    Cancel { index: u32, begin: u32, length: u32 },
}

/// A [`Message`] as plain values.
pub enum MessageView {
    KeepAlive,
    Choke,
    Unchoke,
    Interested,
    NotInterested,
    Have(u32),
    Bitfield(Seq<u8>),
    Request { index: u32, begin: u32, length: u32 },
    Piece { index: u32, begin: u32, data: Seq<u8> },
    Cancel { index: u32, begin: u32, length: u32 },
}

impl View for Message {
    type V = MessageView;

    open spec fn view(&self) -> MessageView {
        match self {
            Message::KeepAlive => MessageView::KeepAlive,
            Message::Choke => MessageView::Choke,
            Message::Unchoke => MessageView::Unchoke,
            Message::Interested => MessageView::Interested,
            Message::NotInterested => MessageView::NotInterested,
            Message::Have(i) => MessageView::Have(*i),
            Message::Bitfield(b) => MessageView::Bitfield(b@),
            Message::Request { index, begin, length } => MessageView::Request {
                index: *index,
                begin: *begin,
                length: *length,
            },
            Message::Piece { index, begin, data } => MessageView::Piece { index: *index, begin: *begin, data: data@ },
            Message::Cancel { index, begin, length } => MessageView::Cancel {
                index: *index,
                begin: *begin,
                length: *length,
            },
        }
    }
}

/// Why bytes could not be read as a message.
#[derive(Clone, Copy, Debug, PartialEq, Eq, Structural)]
pub enum MessageError {
    /// The id is unknown, or the payload too short for it.
    Unreadable { id: u8, payload_len: usize },
}

/// Whether a message fits the wire's 32-bit length prefix.
pub open spec fn fits_wire(m: MessageView) -> bool {
    match m {
        MessageView::Bitfield(b) => 1 + b.len() <= u32::MAX,
        MessageView::Piece { data, .. } => 9 + data.len() <= u32::MAX,
        _ => true,
    }
}

/// The bytes a message is written as: a four-byte big-endian length, then
/// the id and payload that length counts. A keep-alive is the length alone.
pub open spec fn spec_to_bytes(m: MessageView) -> Seq<u8> {
    match m {
        MessageView::KeepAlive => u32_bytes(0),
        MessageView::Choke => u32_bytes(1) + seq![0u8],
        MessageView::Unchoke => u32_bytes(1) + seq![1u8],
        MessageView::Interested => u32_bytes(1) + seq![2u8],
        MessageView::NotInterested => u32_bytes(1) + seq![3u8],
        MessageView::Have(i) => u32_bytes(5) + seq![4u8] + u32_bytes(i),
        MessageView::Bitfield(b) => u32_bytes((1 + b.len()) as u32) + seq![5u8] + b,
        MessageView::Request { index, begin, length } => u32_bytes(13) + seq![6u8] + u32_bytes(index) + u32_bytes(
            begin,
        ) + u32_bytes(length),
        MessageView::Piece { index, begin, data } => u32_bytes((9 + data.len()) as u32) + seq![7u8] + u32_bytes(
            index,
        ) + u32_bytes(begin) + data,
        MessageView::Cancel { index, begin, length } => u32_bytes(13) + seq![8u8] + u32_bytes(index) + u32_bytes(
            begin,
        ) + u32_bytes(length),
    }
}

/// The message an id and payload make, if they make one. Extra payload
/// past what a fixed-size message needs is ignored.
pub open spec fn spec_from_bytes(id: u8, p: Seq<u8>) -> Option<MessageView> {
    if id == 0 {
        Some(MessageView::Choke)
    } else if id == 1 {
        Some(MessageView::Unchoke)
    } else if id == 2 {
        Some(MessageView::Interested)
    } else if id == 3 {
        Some(MessageView::NotInterested)
    } else if id == 4 && p.len() >= 4 {
        Some(MessageView::Have(be_u32_at(p, 0)))
    } else if id == 5 {
        Some(MessageView::Bitfield(p))
    } else if id == 6 && p.len() >= 12 {
        Some(MessageView::Request { index: be_u32_at(p, 0), begin: be_u32_at(p, 4), length: be_u32_at(p, 8) })
    } else if id == 7 && p.len() >= 8 {
        Some(MessageView::Piece { index: be_u32_at(p, 0), begin: be_u32_at(p, 4), data: p.subrange(8, p.len() as int) })
    } else if id == 8 && p.len() >= 12 {
        Some(MessageView::Cancel { index: be_u32_at(p, 0), begin: be_u32_at(p, 4), length: be_u32_at(p, 8) })
    } else {
        None
    }
}

impl Message {
    /// The bytes this message is written as on the wire.
    pub fn to_bytes(&self) -> (r: Vec<u8>)
        requires
            fits_wire(self@),
        ensures
            r@ == spec_to_bytes(self@),
    {
        let mut b: Vec<u8> = Vec::new();
        match self {
            Message::KeepAlive => {
                put_u32(&mut b, 0);
            },
            Message::Choke => {
                put_u32(&mut b, 1);
                b.push(0);
            },
            Message::Unchoke => {
                put_u32(&mut b, 1);
                b.push(1);
            },
            Message::Interested => {
                put_u32(&mut b, 1);
                b.push(2);
            },
            Message::NotInterested => {
                put_u32(&mut b, 1);
                b.push(3);
            },
            Message::Have(idx) => {
                put_u32(&mut b, 5);
                b.push(4);
                put_u32(&mut b, *idx);
            },
            Message::Bitfield(bits) => {
                put_u32(&mut b, (1 + bits.len()) as u32);
                b.push(5);
                put_slice(&mut b, bits.as_slice());
            },
            Message::Request { index, begin, length } => {
                put_u32(&mut b, 13);
                b.push(6);
                put_u32(&mut b, *index);
                put_u32(&mut b, *begin);
                put_u32(&mut b, *length);
            },
            Message::Piece { index, begin, data } => {
                put_u32(&mut b, (9 + data.len()) as u32);
                b.push(7);
                put_u32(&mut b, *index);
                put_u32(&mut b, *begin);
                put_slice(&mut b, data.as_slice());
            },
            Message::Cancel { index, begin, length } => {
                put_u32(&mut b, 13);
                b.push(8);
                put_u32(&mut b, *index);
                put_u32(&mut b, *begin);
                put_u32(&mut b, *length);
            },
        }
        assert(b@ =~= spec_to_bytes(self@));
        b
    }

    /// Reads a message from its id and payload.
    pub fn from_bytes(id: u8, payload: &[u8]) -> (r: Result<Message, MessageError>)
        ensures
            match spec_from_bytes(id, payload@) {
                Some(m) => r matches Ok(x) && x@ == m,
                None => r == Err::<Message, MessageError>(
                    MessageError::Unreadable { id, payload_len: payload@.len() as usize },
                ),
            },
    {
        let len = payload.len();
        if id == 0 {
            Ok(Message::Choke)
        } else if id == 1 {
            Ok(Message::Unchoke)
        } else if id == 2 {
            Ok(Message::Interested)
        } else if id == 3 {
            Ok(Message::NotInterested)
        } else if id == 4 && len >= 4 {
            Ok(Message::Have(read_u32(payload, 0)))
        } else if id == 5 {
            let bits = copy_range(payload, 0, len);
            assert(bits@ =~= payload@);
            Ok(Message::Bitfield(bits))
        } else if id == 6 && len >= 12 {
            Ok(Message::Request { index: read_u32(payload, 0), begin: read_u32(payload, 4), length: read_u32(payload, 8) })
        } else if id == 7 && len >= 8 {
            Ok(Message::Piece { index: read_u32(payload, 0), begin: read_u32(payload, 4), data: copy_range(payload, 8, len) })
        } else if id == 8 && len >= 12 {
            Ok(Message::Cancel { index: read_u32(payload, 0), begin: read_u32(payload, 4), length: read_u32(payload, 8) })
        } else {
            Err(MessageError::Unreadable { id, payload_len: len })
        }
    }
}

/// Reading back what a message was written as gives the message: its id is
/// the byte after the length, its payload everything after that. Holds for
/// every message but the keep-alive, which has no id.
pub proof fn law_message_roundtrip(m: MessageView)
    requires
        fits_wire(m),
        !(m is KeepAlive),
    ensures
        spec_to_bytes(m).len() >= 5,
        spec_from_bytes(spec_to_bytes(m)[4], spec_to_bytes(m).subrange(5, spec_to_bytes(m).len() as int)) == Some(m),
{
    let b = spec_to_bytes(m);
    let p = b.subrange(5, b.len() as int);
    match m {
        MessageView::Have(i) => {
            lemma_u32_roundtrip(i);
            assert(p =~= u32_bytes(i));
        },
        MessageView::Bitfield(bits) => {
            assert(p =~= bits);
        },
        MessageView::Request { index, begin, length } => {
            lemma_u32_roundtrip(index);
            lemma_u32_roundtrip(begin);
            lemma_u32_roundtrip(length);
            assert(p.subrange(0, 4) =~= u32_bytes(index));
            assert(p.subrange(4, 8) =~= u32_bytes(begin));
            assert(p.subrange(8, 12) =~= u32_bytes(length));
            lemma_u32_at(p, 0);
            lemma_u32_at(p, 4);
            lemma_u32_at(p, 8);
        },
        MessageView::Piece { index, begin, data } => {
            lemma_u32_roundtrip(index);
            lemma_u32_roundtrip(begin);
            assert(p.subrange(0, 4) =~= u32_bytes(index));
            assert(p.subrange(4, 8) =~= u32_bytes(begin));
            lemma_u32_at(p, 0);
            lemma_u32_at(p, 4);
            assert(p.subrange(8, p.len() as int) =~= data);
        },
        MessageView::Cancel { index, begin, length } => {
            lemma_u32_roundtrip(index);
            lemma_u32_roundtrip(begin);
            lemma_u32_roundtrip(length);
            assert(p.subrange(0, 4) =~= u32_bytes(index));
            assert(p.subrange(4, 8) =~= u32_bytes(begin));
            assert(p.subrange(8, 12) =~= u32_bytes(length));
            lemma_u32_at(p, 0);
            lemma_u32_at(p, 4);
            lemma_u32_at(p, 8);
        },
        _ => {},
    }
}

/// The big-endian `u32` at `i` depends only on those four bytes.
proof fn lemma_u32_at(s: Seq<u8>, i: int)
    requires
        0 <= i,
        i + 4 <= s.len(),
    ensures
        be_u32_at(s, i) == be_u32_at(s.subrange(i, i + 4), 0),
{
}

} // verus!
