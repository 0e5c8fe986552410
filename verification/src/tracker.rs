use vstd::prelude::*;
use vstd::string::StringExecFns;
use vstd::utf8::decode_utf8;

use crate::bencode::{dict_get, entries_view, from_bytes, spec_lookup, Bencode, BencodeView};
use crate::helpers::{push_char, spec_url_encode, url_encode_bytes};
use crate::metadata::{key, optional_text, optional_text_field, opt_text, read_text, required_text, spec_document};
use crate::wire_protocol::{be_u16_at, copy_range, read_u16};

verus! {

/// The decimal digits of `n` as text, with no leading zero.
pub open spec fn decimal_text(n: nat) -> Seq<char>
    decreases n,
{
    if n < 10 {
        seq![((48 + n) as u8) as char]
    } else {
        decimal_text(n / 10).push(((48 + n % 10) as u8) as char)
    }
}

/// Appends the decimal digits of `n`.
pub fn push_decimal_text(s: &mut String, n: u64)
    ensures
        final(s)@ == old(s)@ + decimal_text(n as nat),
    decreases n,
{
    if n >= 10 {
        push_decimal_text(s, n / 10);
        push_char(s, ((48 + n % 10) as u8) as char);
        assert(s@ =~= old(s)@ + decimal_text(n as nat));
    } else {
        push_char(s, ((48 + n) as u8) as char);
        assert(s@ =~= old(s)@ + decimal_text(n as nat));
    }
}

/// An event an announce can carry.
#[derive(Clone, Copy, Debug, PartialEq, Eq, Structural)]
pub enum TrackerEvent {
    Started,
    Completed,
    Stopped,
}

/// How an event is spelled in an announce.
pub open spec fn event_text(e: TrackerEvent) -> Seq<char> {
    match e {
        TrackerEvent::Started => "started"@,
        TrackerEvent::Completed => "completed"@,
        TrackerEvent::Stopped => "stopped"@,
    }
}

/// A flag as an announce spells it: `1` or `0`.
pub open spec fn flag_text(b: bool) -> Seq<char> {
    if b {
        "1"@
    } else {
        "0"@
    }
}

/// What an announce tells the tracker.
#[derive(Clone, Debug)]
pub struct TrackerAnnounceQuery {
    pub info_hash: [u8; 20],
    pub peer_id: [u8; 20],
    pub port: u16,
    pub uploaded: u64,
    pub downloaded: u64,
    pub left: u64,
    pub compact: bool,
    pub no_peer_id: bool,
    pub event: Option<TrackerEvent>,
    pub ip: Option<String>,
    pub num_want: Option<u32>,
    pub key: Option<String>,
    pub tracker_id: Option<String>,
}

/// The same query, under the name the announce-by-URL tracker uses.
pub type TrackerAnnounceParams = TrackerAnnounceQuery;

/// The port announced when none is chosen.
pub const DEFAULT_PORT: u16 = 6889;

impl TrackerAnnounceQuery {
    /// A first announce: nothing transferred, compact peers asked for,
    /// everything optional left out.
    pub fn new(info_hash: &[u8; 20], peer_id: &[u8; 20]) -> (r: Self)
        ensures
            r.info_hash == *info_hash,
            r.peer_id == *peer_id,
            r.port == DEFAULT_PORT,
            r.uploaded == 0 && r.downloaded == 0 && r.left == 0,
            r.compact && !r.no_peer_id,
            r.event is None && r.ip is None && r.num_want is None && r.key is None && r.tracker_id is None,
    {
        TrackerAnnounceQuery {
            info_hash: *info_hash,
            peer_id: *peer_id,
            port: DEFAULT_PORT,
            uploaded: 0,
            downloaded: 0,
            left: 0,
            compact: true,
            no_peer_id: false,
            event: None,
            ip: None,
            num_want: None,
            key: None,
            tracker_id: None,
        }
    }

    /// Takes the transfer figures of a sample: what was downloaded and
    /// uploaded, and, as `left`, the payload not yet held, whether it was
    /// verified this session or found in a resumed store.
    pub fn record_progress(&mut self, downloaded: u64, uploaded: u64, total_bytes: u64, held_bytes: u64)
        ensures
            final(self).downloaded == downloaded,
            final(self).uploaded == uploaded,
            final(self).left == (if held_bytes <= total_bytes {
                total_bytes - held_bytes
            } else {
                0
            }),
            final(self).info_hash == old(self).info_hash,
            final(self).peer_id == old(self).peer_id,
            final(self).port == old(self).port,
            final(self).compact == old(self).compact,
            final(self).no_peer_id == old(self).no_peer_id,
            final(self).event == old(self).event,
            final(self).ip == old(self).ip,
            final(self).num_want == old(self).num_want,
            final(self).key == old(self).key,
            final(self).tracker_id == old(self).tracker_id,
    {
        self.downloaded = downloaded;
        self.uploaded = uploaded;
        self.left = if held_bytes <= total_bytes {
            total_bytes - held_bytes
        } else {
            0
        };
    }
}

/// An optional parameter: `&name=value` when there is a value.
pub open spec fn optional_param(name: Seq<char>, value: Option<Seq<char>>) -> Seq<char> {
    match value {
        Some(v) => name + v,
        None => Seq::empty(),
    }
}

/// The text of an optional string.
pub open spec fn opt_string(v: Option<String>) -> Option<Seq<char>> {
    match v {
        Some(s) => Some(s@),
        None => None,
    }
}

/// The required part of an announce URL: the tracker's URL, the hashes
/// percent-encoded, the counts in decimal and the flags as `1` or `0`.
pub open spec fn spec_announce_head(base: Seq<char>, q: TrackerAnnounceQuery) -> Seq<char> {
    base + "?info_hash="@ + spec_url_encode(q.info_hash@) + "&peer_id="@ + spec_url_encode(q.peer_id@)
        + "&port="@ + decimal_text(q.port as nat) + "&uploaded="@ + decimal_text(q.uploaded as nat)
        + "&downloaded="@ + decimal_text(q.downloaded as nat) + "&left="@ + decimal_text(q.left as nat)
        + "&compact="@ + flag_text(q.compact) + "&no_peer_id="@ + flag_text(q.no_peer_id)
}

/// The optional part of an announce URL: each parameter only when set.
pub open spec fn spec_announce_tail(q: TrackerAnnounceQuery) -> Seq<char> {
    optional_param(
        "&event="@,
        match q.event {
            Some(e) => Some(event_text(e)),
            None => None,
        },
    ) + optional_param("&ip="@, opt_string(q.ip)) + optional_param(
        "&numwant="@,
        match q.num_want {
            Some(n) => Some(decimal_text(n as nat)),
            None => None,
        },
    ) + optional_param("&key="@, opt_string(q.key)) + optional_param("&tracker_id="@, opt_string(q.tracker_id))
}

/// The URL an announce is sent to: the tracker's URL, then the query.
pub open spec fn spec_announce_url(base: Seq<char>, q: TrackerAnnounceQuery) -> Seq<char> {
    spec_announce_head(base, q) + spec_announce_tail(q)
}

fn push_flag(s: &mut String, b: bool)
    ensures
        final(s)@ == old(s)@ + flag_text(b),
{
    if b {
        s.append("1");
    } else {
        s.append("0");
    }
}

fn announce_head(base: &str, q: &TrackerAnnounceQuery) -> (r: String)
    ensures
        r@ == spec_announce_head(base@, *q),
{
    let mut url = base.to_owned();
    url.append("?info_hash=");
    let hash = url_encode_bytes(q.info_hash.as_slice());
    url.append(hash.as_str());
    url.append("&peer_id=");
    let id = url_encode_bytes(q.peer_id.as_slice());
    url.append(id.as_str());
    url.append("&port=");
    push_decimal_text(&mut url, q.port as u64);
    url.append("&uploaded=");
    push_decimal_text(&mut url, q.uploaded);
    url.append("&downloaded=");
    push_decimal_text(&mut url, q.downloaded);
    url.append("&left=");
    push_decimal_text(&mut url, q.left);
    url.append("&compact=");
    push_flag(&mut url, q.compact);
    url.append("&no_peer_id=");
    push_flag(&mut url, q.no_peer_id);
    url
}

fn push_param(url: &mut String, name: &str, value: &Option<String>)
    ensures
        final(url)@ == old(url)@ + optional_param(name@, opt_string(*value)),
{
    match value {
        Some(v) => {
            url.append(name);
            url.append(v.as_str());
        },
        None => {},
    }
}

fn push_event(url: &mut String, event: Option<TrackerEvent>)
    ensures
        final(url)@ == old(url)@ + optional_param(
            "&event="@,
            match event {
                Some(e) => Some(event_text(e)),
                None => None,
            },
        ),
{
    match event {
        Some(e) => {
            url.append("&event=");
            match e {
                TrackerEvent::Started => url.append("started"),
                TrackerEvent::Completed => url.append("completed"),
                TrackerEvent::Stopped => url.append("stopped"),
            }
        },
        None => {},
    }
}

fn push_num_want(url: &mut String, num_want: Option<u32>)
    ensures
        final(url)@ == old(url)@ + optional_param(
            "&numwant="@,
            match num_want {
                Some(n) => Some(decimal_text(n as nat)),
                None => None,
            },
        ),
{
    match num_want {
        Some(n) => {
            url.append("&numwant=");
            push_decimal_text(url, n as u64);
        },
        None => {},
    }
}

fn push_announce_tail(url: &mut String, q: &TrackerAnnounceQuery)
    ensures
        final(url)@ == old(url)@ + spec_announce_tail(*q),
{
    push_event(url, q.event);
    push_param(url, "&ip=", &q.ip);
    push_num_want(url, q.num_want);
    push_param(url, "&key=", &q.key);
    push_param(url, "&tracker_id=", &q.tracker_id);
    assert(url@ =~= old(url)@ + spec_announce_tail(*q));
}

/// The URL an announce is sent to.
pub fn announce_url(base: &str, q: &TrackerAnnounceQuery) -> (r: String)
    ensures
        r@ == spec_announce_url(base@, *q),
{
    let mut url = announce_head(base, q);
    push_announce_tail(&mut url, q);
    url
}

/// A peer a tracker told us about.
#[derive(Debug)]
pub struct Peer {
    pub peer_id: Option<[u8; 20]>,
    /// The address as text, such as `10.0.0.1`.
    pub ip: String,
    pub port: u16,
}

impl Clone for Peer {
    fn clone(&self) -> (r: Self)
        ensures
            r == *self,
    {
        Peer { peer_id: self.peer_id, ip: self.ip.clone(), port: self.port }
    }
}

impl Peer {
    /// Whether two entries name the same peer: the same address and port,
    /// whatever their ids.
    pub fn same_peer(&self, other: &Peer) -> (r: bool)
        ensures
            r == (self.ip@ == other.ip@ && self.port == other.port),
    {
        self.ip == other.ip && self.port == other.port
    }
}

/// A tracker [`Peer`] as plain values.
pub struct PeerView {
    pub peer_id: Option<Seq<u8>>,
    pub ip: Seq<char>,
    pub port: u16,
}

impl View for Peer {
    type V = PeerView;

    open spec fn view(&self) -> PeerView {
        PeerView {
            peer_id: match self.peer_id {
                Some(id) => Some(id@),
                None => None,
            },
            ip: self.ip@,
            port: self.port,
        }
    }
}

/// The plain values of a list of tracker peers.
pub open spec fn peers_view(v: Seq<Peer>) -> Seq<PeerView> {
    Seq::new(v.len(), |i: int| v[i]@)
}

/// An integer that fits a `u32`.
pub open spec fn count_of(v: BencodeView) -> Option<u32> {
    match v {
        BencodeView::Integer(i) => if 0 <= i <= u32::MAX {
            Some(i as u32)
        } else {
            None
        },
        _ => None,
    }
}

/// An integer that fits a port.
pub open spec fn port_of(v: BencodeView) -> Option<u16> {
    match v {
        BencodeView::Integer(i) => if 0 <= i <= u16::MAX {
            Some(i as u16)
        } else {
            None
        },
        _ => None,
    }
}

/// A peer id: a byte string of exactly 20 bytes.
pub open spec fn peer_id_of(v: BencodeView) -> Option<Seq<u8>> {
    match v {
        BencodeView::Bytes(b) => if b.len() == 20 {
            Some(b)
        } else {
            None
        },
        _ => None,
    }
}

/// An optional field holding a `u32`.
pub open spec fn optional_count(f: Option<BencodeView>) -> Option<Option<u32>> {
    match f {
        None => Some(None),
        Some(v) => match count_of(v) {
            Some(n) => Some(Some(n)),
            None => None,
        },
    }
}

/// A peer entry: `ip` and `port` required, `peer id` optional.
pub open spec fn peer_of(v: BencodeView) -> Option<PeerView> {
    match v {
        BencodeView::Dict(e) => {
            let id = match spec_lookup(e, key("peer id")) {
                None => Some(None),
                Some(x) => match peer_id_of(x) {
                    Some(b) => Some(Some(b)),
                    None => None,
                },
            };
            let ip = required_text(spec_lookup(e, key("ip")));
            let port = match spec_lookup(e, key("port")) {
                Some(x) => port_of(x),
                None => None,
            };
            if id is Some && ip is Some && port is Some {
                Some(PeerView { peer_id: id->0, ip: ip->0, port: port->0 })
            } else {
                None
            }
        },
        _ => None,
    }
}

/// A list of peer entries.
pub open spec fn peers_of(v: BencodeView) -> Option<Seq<PeerView>> {
    match v {
        BencodeView::List(items) => if forall|i: int| 0 <= i < items.len() ==> (#[trigger] peer_of(items[i])) is Some {
            Some(Seq::new(items.len(), |i: int| peer_of(items[i])->0))
        } else {
            None
        },
        _ => None,
    }
}

/// Four bytes as a dotted IPv4 address, such as `10.0.0.1`.
pub open spec fn dotted(b: Seq<u8>) -> Seq<char> {
    decimal_text(b[0] as nat) + "."@ + decimal_text(b[1] as nat) + "."@ + decimal_text(b[2] as nat) + "."@
        + decimal_text(b[3] as nat)
}

/// The compact peer list: six bytes per peer, the IPv4 address then the
/// port in network order. A ragged tail is ignored.
pub open spec fn compact_peers(b: Seq<u8>) -> Seq<PeerView> {
    Seq::new(
        b.len() / 6,
        |i: int| PeerView { peer_id: None, ip: dotted(b.subrange(6 * i, 6 * i + 4)), port: be_u16_at(b, 6 * i + 4) },
    )
}

/// What every tracker response carries, whatever its peer list looks like.
#[derive(Clone, Debug)]
pub struct TrackerResponseBase {
    pub failure_reason: Option<String>,
    pub warning_message: Option<String>,
    pub interval: Option<u32>,
    pub min_interval: Option<u32>,
    pub tracker_id: Option<String>,
    pub complete: Option<u32>,
    pub incomplete: Option<u32>,
}

/// A [`TrackerResponseBase`] as plain values.
pub struct BaseView {
    pub failure_reason: Option<Seq<char>>,
    pub warning_message: Option<Seq<char>>,
    pub interval: Option<u32>,
    pub min_interval: Option<u32>,
    pub tracker_id: Option<Seq<char>>,
    pub complete: Option<u32>,
    pub incomplete: Option<u32>,
}

impl View for TrackerResponseBase {
    type V = BaseView;

    open spec fn view(&self) -> BaseView {
        BaseView {
            failure_reason: opt_text(self.failure_reason),
            warning_message: opt_text(self.warning_message),
            interval: self.interval,
            min_interval: self.min_interval,
            tracker_id: opt_text(self.tracker_id),
            complete: self.complete,
            incomplete: self.incomplete,
        }
    }
}

/// The common fields of a response: every one optional, each of the right
/// kind when present.
pub open spec fn base_of(e: Seq<(Seq<u8>, BencodeView)>) -> Option<BaseView> {
    let failure_reason = optional_text(spec_lookup(e, key("failure reason")));
    let warning_message = optional_text(spec_lookup(e, key("warning message")));
    let interval = optional_count(spec_lookup(e, key("interval")));
    let min_interval = optional_count(spec_lookup(e, key("min interval")));
    let tracker_id = optional_text(spec_lookup(e, key("tracker id")));
    let complete = optional_count(spec_lookup(e, key("complete")));
    let incomplete = optional_count(spec_lookup(e, key("incomplete")));
    if failure_reason is Some && warning_message is Some && interval is Some && min_interval is Some
        && tracker_id is Some && complete is Some && incomplete is Some {
        Some(
            BaseView {
                failure_reason: failure_reason->0,
                warning_message: warning_message->0,
                interval: interval->0,
                min_interval: min_interval->0,
                tracker_id: tracker_id->0,
                complete: complete->0,
                incomplete: incomplete->0,
            },
        )
    } else {
        None
    }
}

/// A tracker's answer to an announce.
#[derive(Clone, Debug)]
pub struct TrackerResponse {
    pub base: TrackerResponseBase,
    pub peers: Option<Vec<Peer>>,
}

/// A response whose peers came as one compact byte string.
#[derive(Clone, Debug)]
pub struct TrackerResponseRawPeer {
    pub base: TrackerResponseBase,
    pub peers: Vec<u8>,
}

/// A [`TrackerResponse`] as plain values.
pub struct ResponseView {
    pub base: BaseView,
    pub peers: Option<Seq<PeerView>>,
}

impl View for TrackerResponse {
    type V = ResponseView;

    open spec fn view(&self) -> ResponseView {
        ResponseView {
            base: self.base@,
            peers: match self.peers {
                Some(p) => Some(peers_view(p@)),
                None => None,
            },
        }
    }
}

/// What a response says. Its peers come either as a list of entries or as
/// one compact byte string; no `peers` at all is an empty answer, not an
/// error.
pub open spec fn response_of(v: BencodeView) -> Option<ResponseView> {
    match v {
        BencodeView::Dict(e) => match base_of(e) {
            Some(base) => match spec_lookup(e, key("peers")) {
                None => Some(ResponseView { base, peers: None }),
                Some(p) => match peers_of(p) {
                    Some(list) => Some(ResponseView { base, peers: Some(list) }),
                    None => match p {
                        BencodeView::Bytes(b) => Some(ResponseView { base, peers: Some(compact_peers(b)) }),
                        _ => None,
                    },
                },
            },
            None => None,
        },
        _ => None,
    }
}

/// Why an announce's answer could not be read.
#[derive(Clone, Copy, Debug, PartialEq, Eq, Structural)]
pub enum AnnounceError {
    /// The bytes are not one bencoded value.
    Malformed,
    /// The value is not a tracker response.
    NotAResponse,
}

fn read_count(v: &Bencode) -> (r: Option<u32>)
    ensures
        r == count_of(v@),
{
    match v {
        Bencode::Integer(i) => if 0 <= *i && *i <= 0xffff_ffff {
            Some(*i as u32)
        } else {
            None
        },
        _ => None,
    }
}

fn read_port(v: &Bencode) -> (r: Option<u16>)
    ensures
        r == port_of(v@),
{
    match v {
        Bencode::Integer(i) => if 0 <= *i && *i <= 0xffff {
            Some(*i as u16)
        } else {
            None
        },
        _ => None,
    }
}

fn read_peer_id(v: &Bencode) -> (r: Option<[u8; 20]>)
    ensures
        match peer_id_of(v@) {
            Some(b) => r matches Some(x) && x@ == b,
            None => r is None,
        },
{
    match v {
        Bencode::Bytes(b) => if b.len() == 20 {
            let mut id = [0u8; 20];
            let mut k: usize = 0;
            while k < 20
                invariant
                    k <= 20,
                    b@.len() == 20,
                    id@.len() == 20,
                    forall|j: int| 0 <= j < k ==> id@[j] == b@[j],
                decreases 20 - k,
            {
                id[k] = b[k];
                k = k + 1;
            }
            assert(id@ =~= b@);
            Some(id)
        } else {
            None
        },
        _ => None,
    }
}

fn optional_count_field(entries: &Vec<(Vec<u8>, Bencode)>, name: &[u8]) -> (r: Option<Option<u32>>)
    ensures
        r == optional_count(spec_lookup(entries_view(entries@), name@)),
{
    match dict_get(entries, name) {
        Some(x) => match read_count(x) {
            Some(n) => Some(Some(n)),
            None => None,
        },
        None => Some(None),
    }
}

fn read_peer(v: &Bencode) -> (r: Option<Peer>)
    ensures
        match peer_of(v@) {
            Some(p) => r matches Some(x) && x@ == p,
            None => r is None,
        },
{
    match v {
        Bencode::Dict(entries) => {
            assert(v@->Dict_0 =~= entries_view(entries@));
            let peer_id = match dict_get(entries, "peer id".as_bytes()) {
                Some(x) => match read_peer_id(x) {
                    Some(id) => Some(id),
                    None => return None,
                },
                None => None,
            };
            let ip = match dict_get(entries, "ip".as_bytes()) {
                Some(x) => match read_text(x) {
                    Some(t) => t,
                    None => return None,
                },
                None => return None,
            };
            let port = match dict_get(entries, "port".as_bytes()) {
                Some(x) => match read_port(x) {
                    Some(p) => p,
                    None => return None,
                },
                None => return None,
            };
            Some(Peer { peer_id, ip, port })
        },
        _ => None,
    }
}

fn read_peers(v: &Bencode) -> (r: Option<Vec<Peer>>)
    ensures
        match peers_of(v@) {
            Some(t) => r matches Some(s) && peers_view(s@) == t,
            None => r is None,
        },
{
    match v {
        Bencode::List(items) => {
            let ghost items_view = v@->List_0;
            assert(v@ == BencodeView::List(items_view));
            let mut out: Vec<Peer> = Vec::new();
            let mut k: usize = 0;
            while k < items.len()
                invariant
                    v@ == BencodeView::List(items_view),
                    k <= items@.len(),
                    items_view.len() == items@.len(),
                    forall|j: int| 0 <= j < items@.len() ==> items_view[j] == #[trigger] items@[j]@,
                    out@.len() == k,
                    forall|j: int| 0 <= j < k ==> (#[trigger] peer_of(items_view[j])) is Some,
                    forall|j: int| 0 <= j < k ==> out@[j]@ == (#[trigger] peer_of(items_view[j]))->0,
                decreases items@.len() - k,
            {
                match read_peer(&items[k]) {
                    Some(p) => {
                        out.push(p);
                    },
                    None => {
                        assert(peer_of(items_view[k as int]) is None);
                        assert(!(forall|i: int| 0 <= i < items_view.len() ==> (#[trigger] peer_of(items_view[i])) is Some));
                        return None;
                    },
                }
                k = k + 1;
            }
            assert(peers_view(out@) =~= Seq::new(items_view.len(), |i: int| peer_of(items_view[i])->0));
            Some(out)
        },
        _ => None,
    }
}

/// Four bytes as a dotted IPv4 address.
fn dotted_text(b: &[u8]) -> (r: String)
    requires
        b@.len() == 4,
    ensures
        r@ == dotted(b@),
{
    let mut s = String::new();
    push_decimal_text(&mut s, b[0] as u64);
    s.append(".");
    push_decimal_text(&mut s, b[1] as u64);
    s.append(".");
    push_decimal_text(&mut s, b[2] as u64);
    s.append(".");
    push_decimal_text(&mut s, b[3] as u64);
    assert(s@ =~= dotted(b@));
    s
}

/// Reads a compact peer list: six bytes per peer.
pub fn decode_compact_peers(b: &[u8]) -> (r: Vec<Peer>)
    ensures
        peers_view(r@) == compact_peers(b@),
{
    let len = b.len();
    let count = len / 6;
    let mut out: Vec<Peer> = Vec::new();
    let mut k: usize = 0;
    while k < count
        invariant
            count == b@.len() / 6,
            len == b@.len(),
            k <= count,
            out@.len() == k,
            forall|j: int| 0 <= j < k ==> #[trigger] out@[j]@ == compact_peers(b@)[j],
        decreases count - k,
    {
        assert(6 * k + 6 <= len) by (nonlinear_arith)
            requires
                k < count,
                count == len / 6,
        ;
        let addr = copy_range(b, 6 * k, 6 * k + 4);
        let ip = dotted_text(addr.as_slice());
        let port = read_u16(b, 6 * k + 4);
        out.push(Peer { peer_id: None, ip, port });
        k = k + 1;
    }
    assert(peers_view(out@) =~= compact_peers(b@));
    out
}

impl TrackerResponse {
    /// A response whose peers came compact, with its peers decoded.
    pub fn from_raw(raw: TrackerResponseRawPeer) -> (r: TrackerResponse)
        ensures
            r@ == (ResponseView { base: raw.base@, peers: Some(compact_peers(raw.peers@)) }),
    {
        let peers = decode_compact_peers(raw.peers.as_slice());
        TrackerResponse { base: raw.base, peers: Some(peers) }
    }
}

fn read_base(entries: &Vec<(Vec<u8>, Bencode)>) -> (r: Option<TrackerResponseBase>)
    ensures
        match base_of(entries_view(entries@)) {
            Some(b) => r matches Some(x) && x@ == b,
            None => r is None,
        },
{
    let failure_reason = match optional_text_field(entries, "failure reason".as_bytes()) {
        Some(t) => t,
        None => return None,
    };
    let warning_message = match optional_text_field(entries, "warning message".as_bytes()) {
        Some(t) => t,
        None => return None,
    };
    let interval = match optional_count_field(entries, "interval".as_bytes()) {
        Some(n) => n,
        None => return None,
    };
    let min_interval = match optional_count_field(entries, "min interval".as_bytes()) {
        Some(n) => n,
        None => return None,
    };
    let tracker_id = match optional_text_field(entries, "tracker id".as_bytes()) {
        Some(t) => t,
        None => return None,
    };
    let complete = match optional_count_field(entries, "complete".as_bytes()) {
        Some(n) => n,
        None => return None,
    };
    let incomplete = match optional_count_field(entries, "incomplete".as_bytes()) {
        Some(n) => n,
        None => return None,
    };
    Some(TrackerResponseBase { failure_reason, warning_message, interval, min_interval, tracker_id, complete, incomplete })
}

/// Reads a tracker's answer to an announce.
pub fn parse_announce_response(bytes: &[u8]) -> (r: Result<TrackerResponse, AnnounceError>)
    ensures
        match spec_document(bytes@) {
            None => r == Err::<TrackerResponse, AnnounceError>(AnnounceError::Malformed),
            Some(v) => match response_of(v) {
                Some(resp) => r matches Ok(x) && x@ == resp,
                None => r == Err::<TrackerResponse, AnnounceError>(AnnounceError::NotAResponse),
            },
        },
{
    let doc = match from_bytes(bytes) {
        Some(d) => d,
        None => return Err(AnnounceError::Malformed),
    };
    let entries = match &doc {
        Bencode::Dict(entries) => entries,
        _ => return Err(AnnounceError::NotAResponse),
    };
    assert(doc@->Dict_0 =~= entries_view(entries@));
    let base = match read_base(entries) {
        Some(b) => b,
        None => return Err(AnnounceError::NotAResponse),
    };
    match dict_get(entries, "peers".as_bytes()) {
        None => Ok(TrackerResponse { base, peers: None }),
        Some(p) => match read_peers(p) {
            Some(list) => Ok(TrackerResponse { base, peers: Some(list) }),
            None => match p {
                Bencode::Bytes(b) => {
                    let raw = TrackerResponseRawPeer { base, peers: copy_range(b.as_slice(), 0, b.len()) };
                    assert(raw.peers@ =~= b@);
                    Ok(TrackerResponse::from_raw(raw))
                },
                _ => Err(AnnounceError::NotAResponse),
            },
        },
    }
}

/// The texts of a list of strings.
pub open spec fn texts(v: Seq<String>) -> Seq<Seq<char>> {
    Seq::new(v.len(), |i: int| v[i]@)
}

/// The URLs a tracker can be reached at, the one in use first.
pub open spec fn ring_of(announce_url: Seq<char>, backup_urls: Seq<String>) -> Seq<Seq<char>> {
    seq![announce_url] + texts(backup_urls)
}

/// One turn: the URL in use goes to the back and the next one comes up.
pub open spec fn rotate_ring(r: Seq<Seq<char>>) -> Seq<Seq<char>> {
    r.drop_first().push(r[0])
}

/// `n` turns.
pub open spec fn rotate_n(r: Seq<Seq<char>>, n: nat) -> Seq<Seq<char>>
    decreases n,
{
    if n == 0 {
        r
    } else {
        rotate_ring(rotate_n(r, (n - 1) as nat))
    }
}

/// A tracker reached over HTTP, with the URLs to fall back on.
#[derive(Clone, Debug)]
pub struct Tracker {
    pub announce_url: String,
    /// Tried in order once the current URL fails.
    pub backup_urls: Vec<String>,
    /// When to announce next, in milliseconds of the caller's clock.
    pub next_run: u64,
    pub failed_count: u32,
    pub tracker_id: Option<String>,
}

impl Tracker {
    /// A tracker to announce to at `now`, nothing failed yet.
    pub fn new(announce_url: &str, backup_urls: Vec<String>, now: u64) -> (r: Tracker)
        ensures
            r.announce_url@ == announce_url@,
            r.backup_urls@ == backup_urls@,
            r.next_run == now,
            r.failed_count == 0,
            r.tracker_id is None,
    {
        Tracker { announce_url: announce_url.to_owned(), backup_urls, next_run: now, failed_count: 0, tracker_id: None }
    }

    /// Moves to the next URL; the one in use goes to the back of the line.
    pub fn rotate_url(&mut self)
        ensures
            ring_of(final(self).announce_url@, final(self).backup_urls@) == rotate_ring(
                ring_of(old(self).announce_url@, old(self).backup_urls@),
            ),
            final(self).next_run == old(self).next_run,
            final(self).failed_count == old(self).failed_count,
            final(self).tracker_id == old(self).tracker_id,
    {
        let ghost before = ring_of(self.announce_url@, self.backup_urls@);
        self.backup_urls.push(self.announce_url.clone());
        self.announce_url = self.backup_urls.remove(0);
        assert(ring_of(self.announce_url@, self.backup_urls@) =~= rotate_ring(before));
    }

    /// Whether this tracker is due no later than `other`: the one with the
    /// earlier next run is announced to first.
    pub fn runs_before(&self, other: &Tracker) -> (r: bool)
        ensures
            r == (self.next_run <= other.next_run),
    {
        self.next_run <= other.next_run
    }
}

proof fn lemma_rotate_n(r: Seq<Seq<char>>, n: nat)
    requires
        n <= r.len(),
    ensures
        rotate_n(r, n) == r.subrange(n as int, r.len() as int) + r.subrange(0, n as int),
    decreases n,
{
    if n == 0 {
        assert(r.subrange(0, r.len() as int) + r.subrange(0, 0) =~= r);
    } else {
        lemma_rotate_n(r, (n - 1) as nat);
        let prev = rotate_n(r, (n - 1) as nat);
        assert(prev[0] == r[n - 1]);
        assert(rotate_ring(prev) =~= r.subrange(n as int, r.len() as int) + r.subrange(0, n as int));
    }
}

/// Turning through every URL once comes back to where it started: each URL
/// is tried in turn and none is lost.
pub proof fn law_rotation_cycles(announce_url: Seq<char>, backup_urls: Seq<String>)
    ensures
        rotate_n(ring_of(announce_url, backup_urls), ring_of(announce_url, backup_urls).len())
            == ring_of(announce_url, backup_urls),
{
    let r = ring_of(announce_url, backup_urls);
    lemma_rotate_n(r, r.len());
    assert(r.subrange(r.len() as int, r.len() as int) + r.subrange(0, r.len() as int) =~= r);
}

/// An HTTP tracker client: where it announces, and the id the tracker gave
/// it, if any.
#[derive(Clone, Debug)]
pub struct TcpTrackerClient {
    pub announce_url: String,
    pub tracker_id: Option<String>,
}

impl TcpTrackerClient {
    pub fn new(announce_url: &str) -> (r: Self)
        ensures
            r.announce_url@ == announce_url@,
            r.tracker_id is None,
    {
        TcpTrackerClient { announce_url: announce_url.to_owned(), tracker_id: None }
    }

    /// Where this client's announce for `q` goes.
    pub fn announce_url(&self, q: &TrackerAnnounceQuery) -> (r: String)
        ensures
            r@ == spec_announce_url(self.announce_url@, *q),
    {
        announce_url(self.announce_url.as_str(), q)
    }
}

/// How long a tracker that failed waits before it is tried again.
pub const RETRY_DELAY_MS: u64 = 5000;

/// The interval used when a tracker does not set one, in seconds.
pub const DEFAULT_MIN_INTERVAL_SECS: u32 = 60;

/// A tracker in the announce schedule.
#[derive(Clone, Debug)]
pub struct ScheduledTracker {
    pub announce_url: String,
    /// When it is due, in milliseconds of the caller's clock.
    pub next_instance: u64,
    pub failure_count: u32,
}

/// The trackers to announce to, each with when it is next due.
pub struct TrackerSchedule {
    pub trackers: Vec<ScheduledTracker>,
}

/// The position of the first tracker due no later than any other.
pub open spec fn is_earliest(s: Seq<ScheduledTracker>, i: int) -> bool {
    &&& 0 <= i < s.len()
    &&& forall|j: int| 0 <= j < s.len() ==> s[i].next_instance <= #[trigger] s[j].next_instance
    &&& forall|j: int| 0 <= j < i ==> s[i].next_instance < #[trigger] s[j].next_instance
}

impl TrackerSchedule {
    /// Every tracker due at once, nothing failed.
    pub fn new(announce_urls: &Vec<String>, now: u64) -> (r: Self)
        ensures
            r.trackers@.len() == announce_urls@.len(),
            forall|i: int|
                0 <= i < r.trackers@.len() ==> (#[trigger] r.trackers@[i]).announce_url == announce_urls@[i]
                    && r.trackers@[i].next_instance == now && r.trackers@[i].failure_count == 0,
    {
        let mut trackers: Vec<ScheduledTracker> = Vec::new();
        let mut k: usize = 0;
        while k < announce_urls.len()
            invariant
                k <= announce_urls@.len(),
                trackers@.len() == k,
                forall|i: int|
                    0 <= i < k ==> (#[trigger] trackers@[i]).announce_url == announce_urls@[i]
                        && trackers@[i].next_instance == now && trackers@[i].failure_count == 0,
            decreases announce_urls@.len() - k,
        {
            trackers.push(ScheduledTracker { announce_url: announce_urls[k].clone(), next_instance: now, failure_count: 0 });
            k = k + 1;
        }
        TrackerSchedule { trackers }
    }

    /// Takes out the tracker due first; `None` once there is none.
    pub fn pop_next(&mut self) -> (r: Option<ScheduledTracker>)
        ensures
            old(self).trackers@.len() == 0 ==> r is None && final(self).trackers@ == old(self).trackers@,
            old(self).trackers@.len() > 0 ==> exists|i: int|
                #![trigger old(self).trackers@[i]]
                is_earliest(old(self).trackers@, i) && r == Some(old(self).trackers@[i])
                    && final(self).trackers@ == old(self).trackers@.remove(i),
    {
        if self.trackers.len() == 0 {
            return None;
        }
        let mut best: usize = 0;
        let mut k: usize = 1;
        while k < self.trackers.len()
            invariant
                1 <= k <= self.trackers@.len(),
                best < k,
                forall|j: int| 0 <= j < k ==> self.trackers@[best as int].next_instance <= #[trigger] self.trackers@[j].next_instance,
                forall|j: int| 0 <= j < best ==> self.trackers@[best as int].next_instance < #[trigger] self.trackers@[j].next_instance,
            decreases self.trackers@.len() - k,
        {
            if self.trackers[k].next_instance < self.trackers[best].next_instance {
                best = k;
            }
            k = k + 1;
        }
        let ghost i = best as int;
        assert(is_earliest(self.trackers@, i));
        let t = self.trackers.remove(best);
        Some(t)
    }

    /// Puts a tracker back into the schedule.
    pub fn push(&mut self, t: ScheduledTracker)
        ensures
            final(self).trackers@ == old(self).trackers@.push(t),
    {
        self.trackers.push(t);
    }
}

impl ScheduledTracker {
    /// A failed announce: one more failure, and another try a little later.
    pub fn after_failure(self, now: u64) -> (r: ScheduledTracker)
        requires
            self.failure_count < u32::MAX,
            now + RETRY_DELAY_MS <= u64::MAX,
        ensures
            r.announce_url == self.announce_url,
            r.failure_count == self.failure_count + 1,
            r.next_instance == now + RETRY_DELAY_MS,
    {
        ScheduledTracker {
            announce_url: self.announce_url,
            next_instance: now + RETRY_DELAY_MS,
            failure_count: self.failure_count + 1,
        }
    }

    /// A successful announce: failures forgotten, and the next one after the
    /// tracker's minimum interval, or a minute if it set none.
    pub fn after_success(self, now: u64, min_interval: Option<u32>) -> (r: ScheduledTracker)
        requires
            now + 1000 * (match min_interval {
                Some(s) => s,
                None => DEFAULT_MIN_INTERVAL_SECS,
            }) <= u64::MAX,
        ensures
            r.announce_url == self.announce_url,
            r.failure_count == 0,
            r.next_instance == now + 1000 * (match min_interval {
                Some(s) => s,
                None => DEFAULT_MIN_INTERVAL_SECS,
            }),
    {
        let secs: u32 = match min_interval {
            Some(s) => s,
            None => DEFAULT_MIN_INTERVAL_SECS,
        };
        ScheduledTracker { announce_url: self.announce_url, next_instance: now + 1000 * (secs as u64), failure_count: 0 }
    }
}

/// Announces a torrent to every tracker it names.
pub struct TrackerManager {
    pub announce_urls: Vec<String>,
    pub info_hash: [u8; 20],
    pub peer_id: [u8; 20],
}

impl TrackerManager {
    pub fn new(announce_urls: Vec<String>, info_hash: &[u8; 20], peer_id: &[u8; 20]) -> (r: Self)
        ensures
            r.announce_urls@ == announce_urls@,
            r.info_hash == *info_hash,
            r.peer_id == *peer_id,
    {
        TrackerManager { announce_urls, info_hash: *info_hash, peer_id: *peer_id }
    }

    /// The query every announce sends.
    pub fn query(&self) -> (r: TrackerAnnounceQuery)
        ensures
            r.info_hash == self.info_hash,
            r.peer_id == self.peer_id,
            r.port == DEFAULT_PORT,
            r.uploaded == 0 && r.downloaded == 0 && r.left == 0,
            r.compact && !r.no_peer_id,
            r.event is None && r.ip is None && r.num_want is None && r.key is None && r.tracker_id is None,
    {
        TrackerAnnounceQuery::new(&self.info_hash, &self.peer_id)
    }

    /// The schedule to start from: every tracker due at `now`.
    pub fn schedule(&self, now: u64) -> (r: TrackerSchedule)
        ensures
            r.trackers@.len() == self.announce_urls@.len(),
            forall|i: int|
                0 <= i < r.trackers@.len() ==> (#[trigger] r.trackers@[i]).announce_url == self.announce_urls@[i]
                    && r.trackers@[i].next_instance == now && r.trackers@[i].failure_count == 0,
    {
        TrackerSchedule::new(&self.announce_urls, now)
    }
}

/// The events are spelled as the announce protocol spells them, each its own
/// word: `started`, `completed` and `stopped`.
pub proof fn law_event_words(e: TrackerEvent, f: TrackerEvent)
    ensures
        event_text(TrackerEvent::Started) == seq!['s', 't', 'a', 'r', 't', 'e', 'd'],
        event_text(TrackerEvent::Completed) == seq!['c', 'o', 'm', 'p', 'l', 'e', 't', 'e', 'd'],
        event_text(TrackerEvent::Stopped) == seq!['s', 't', 'o', 'p', 'p', 'e', 'd'],
        e != f ==> event_text(e) != event_text(f),
{
    reveal_strlit("started");
    reveal_strlit("completed");
    reveal_strlit("stopped");
    assert(event_text(TrackerEvent::Started) =~= seq!['s', 't', 'a', 'r', 't', 'e', 'd']);
    assert(event_text(TrackerEvent::Completed) =~= seq!['c', 'o', 'm', 'p', 'l', 'e', 't', 'e', 'd']);
    assert(event_text(TrackerEvent::Stopped) =~= seq!['s', 't', 'o', 'p', 'p', 'e', 'd']);
    if e != f {
        if event_text(e).len() == event_text(f).len() {
            assert(event_text(e)[2] != event_text(f)[2]);
        }
    }
}

/// Setting an event on an announce adds `&event=` and the event's word right
/// after the required parameters, and changes nothing else of the URL.
pub proof fn law_event_in_the_url(base: Seq<char>, q: TrackerAnnounceQuery, e: TrackerEvent)
    ensures
        ({
            let with = TrackerAnnounceQuery { event: Some(e), ..q };
            let without = TrackerAnnounceQuery { event: None, ..q };
            let head = spec_announce_head(base, q);
            &&& spec_announce_url(base, with) == head + "&event="@ + event_text(e) + spec_announce_url(
                base,
                without,
            ).subrange(head.len() as int, spec_announce_url(base, without).len() as int)
        }),
{
    let with = TrackerAnnounceQuery { event: Some(e), ..q };
    let without = TrackerAnnounceQuery { event: None, ..q };
    let head = spec_announce_head(base, q);
    assert(spec_announce_head(base, with) == head);
    assert(spec_announce_head(base, without) == head);
    let u = spec_announce_url(base, without);
    assert(u.subrange(head.len() as int, u.len() as int) =~= spec_announce_tail(without));
    assert(optional_param("&event="@, None) =~= Seq::<char>::empty());
    assert(spec_announce_tail(without) =~= spec_announce_tail(with).subrange(
        ("&event="@ + event_text(e)).len() as int,
        spec_announce_tail(with).len() as int,
    ));
    assert(spec_announce_url(base, with) =~= head + "&event="@ + event_text(e) + spec_announce_tail(without));
}

/// `min interval` is read from its own key and no other: when an answer
/// the tracker sent holds a count there, that is the minimum interval,
/// whatever `interval` says; when it has no such key, there is none.
pub proof fn law_min_interval_has_its_own_key(e: Seq<(Seq<u8>, BencodeView)>, n: int)
    requires
        response_of(BencodeView::Dict(e)) is Some,
    ensures
        spec_lookup(e, key("min interval")) == Some(BencodeView::Integer(n)) && 0 <= n <= u32::MAX
            ==> response_of(BencodeView::Dict(e))->0.base.min_interval == Some(n as u32),
        spec_lookup(e, key("min interval")) is None ==> response_of(BencodeView::Dict(e))->0.base.min_interval is None,
{
}

/// Every field of a tracker's answer is read from its own key: a count under
/// `interval`, `min interval`, `complete` or `incomplete` is that field, a
/// text under `failure reason`, `warning message` or `tracker id` is that
/// field, and a key that is absent leaves its field empty.
pub proof fn law_answer_fields_have_their_own_keys(e: Seq<(Seq<u8>, BencodeView)>)
    requires
        response_of(BencodeView::Dict(e)) is Some,
    ensures
        ({
            let b = response_of(BencodeView::Dict(e))->0.base;
            &&& forall|n: int|
                spec_lookup(e, key("interval")) == Some(BencodeView::Integer(n)) ==> b.interval == Some(n as u32)
            &&& forall|n: int|
                spec_lookup(e, key("min interval")) == Some(BencodeView::Integer(n)) ==> b.min_interval == Some(
                    n as u32,
                )
            &&& forall|n: int|
                spec_lookup(e, key("complete")) == Some(BencodeView::Integer(n)) ==> b.complete == Some(n as u32)
            &&& forall|n: int|
                spec_lookup(e, key("incomplete")) == Some(BencodeView::Integer(n)) ==> b.incomplete == Some(n as u32)
            &&& forall|t: Seq<u8>|
                spec_lookup(e, key("failure reason")) == Some(BencodeView::Bytes(t)) ==> b.failure_reason == Some(
                    decode_utf8(t),
                )
            &&& forall|t: Seq<u8>|
                spec_lookup(e, key("warning message")) == Some(BencodeView::Bytes(t)) ==> b.warning_message == Some(
                    decode_utf8(t),
                )
            &&& forall|t: Seq<u8>|
                spec_lookup(e, key("tracker id")) == Some(BencodeView::Bytes(t)) ==> b.tracker_id == Some(
                    decode_utf8(t),
                )
            &&& spec_lookup(e, key("interval")) is None ==> b.interval is None
            &&& spec_lookup(e, key("min interval")) is None ==> b.min_interval is None
            &&& spec_lookup(e, key("complete")) is None ==> b.complete is None
            &&& spec_lookup(e, key("incomplete")) is None ==> b.incomplete is None
            &&& spec_lookup(e, key("failure reason")) is None ==> b.failure_reason is None
            &&& spec_lookup(e, key("warning message")) is None ==> b.warning_message is None
            &&& spec_lookup(e, key("tracker id")) is None ==> b.tracker_id is None
        }),
{
}

} // verus!
