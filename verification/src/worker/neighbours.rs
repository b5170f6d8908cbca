//! Neighbour discovery over netlink.

use netlink_packet_core::{NetlinkHeader, NetlinkMessage, NetlinkPayload};
use netlink_packet_route::neighbour::{NeighbourAttribute, NeighbourMessage, NeighbourState};
use netlink_packet_route::{AddressFamily, RouteNetlinkMessage};
use vstd::prelude::*;
use vstd::slice::*;

use crate::worker::endian;
use crate::worker::endian::ByteOrder;
use crate::worker::ports::MacAddr;

verus! {

/// Flags of a request for all entries: `NLM_F_REQUEST` and `NLM_F_DUMP`.
pub const DUMP_REQUEST: u16 = 0x301;

/// State of a neighbour that is known to be reachable.
pub const NUD_REACHABLE: u16 = 2;

/// Type of a request for neighbours.
pub const RTM_GETNEIGH: u16 = 30;

/// Size of a neighbour request: the netlink header and the neighbour header.
pub const REQUEST_LEN: usize = 28;

/// Size of the buffer that replies are received into.
pub const RECEIVE_BUFFER_LEN: usize = 4096;

/// Address family of a neighbour.
#[derive(Debug, Clone, Copy, PartialEq, Eq, Structural)]
pub enum Family {
    Inet,
    Inet6,
    Other,
}

/// A neighbour entry; attributes other than link-layer addresses are `None`.
#[derive(Debug, Clone)]
pub struct Neighbour {
    pub family: Family,
    pub state: u16,
    pub if_index: u32,
    pub link_addrs: Vec<Option<Vec<u8>>>,
}

/// The payload of a netlink message.
#[derive(Debug, Clone)]
pub enum Payload {
    /// The last message of a dump.
    Done,
    NewNeighbour(Neighbour),
    /// An error with the code the kernel sent.
    Failed(i32),
    Other,
}

/// What a payload says.
pub enum PayloadView {
    Done,
    NewNeighbour(Family, u16, u32, Seq<Option<Seq<u8>>>),
    Failed(i32),
    Other,
}

/// The bytes of the given attributes.
pub open spec fn attr_views(v: Seq<Option<Vec<u8>>>) -> Seq<Option<Seq<u8>>> {
    Seq::new(
        v.len(),
        |i: int|
            match v[i] {
                Some(a) => Some(a@),
                None => None,
            },
    )
}

impl View for Payload {
    type V = PayloadView;

    open spec fn view(&self) -> PayloadView {
        match *self {
            Payload::Done => PayloadView::Done,
            Payload::NewNeighbour(n) => PayloadView::NewNeighbour(
                n.family,
                n.state,
                n.if_index,
                attr_views(n.link_addrs@),
            ),
            Payload::Failed(code) => PayloadView::Failed(code),
            Payload::Other => PayloadView::Other,
        }
    }
}

/// What a parsed message says.
pub open spec fn message_view(m: Option<Message>) -> Option<(u32, PayloadView)> {
    match m {
        Some(m) => Some((m.length, m.payload@)),
        None => None,
    }
}

/// A netlink message.
#[derive(Debug, Clone)]
pub struct Message {
    pub length: u32,
    pub payload: Payload,
}

/// The bytes of a number, in big-endian or little-endian order.
pub open spec fn u16_bytes(v: u16, big: bool) -> Seq<u8> {
    let (hi, lo) = ((v / 256) as u8, (v % 256) as u8);
    if big {
        seq![hi, lo]
    } else {
        seq![lo, hi]
    }
}

/// The bytes of a number, in big-endian or little-endian order.
pub open spec fn u32_bytes(v: u32, big: bool) -> Seq<u8> {
    let (hi, lo) = ((v / 65536) as u16, (v % 65536) as u16);
    if big {
        u16_bytes(hi, big) + u16_bytes(lo, big)
    } else {
        u16_bytes(lo, big) + u16_bytes(hi, big)
    }
}

/// The bytes of a request: the netlink header with length, type, flags, sequence number and port, and
/// the neighbour header with family, interface, state, flags and kind.
pub open spec fn request_bytes(flags: u16, if_index: u32, state: u16, big: bool) -> Seq<u8> {
    u32_bytes(REQUEST_LEN as u32, big) + u16_bytes(RTM_GETNEIGH, big) + u16_bytes(flags, big) + u32_bytes(0, big)
        + u32_bytes(0, big) + seq![0u8, 0, 0, 0] + u32_bytes(if_index, big) + u16_bytes(state, big) + seq![0u8, 0]
}

/// Serializes a request for neighbours with `netlink_packet_core::NetlinkMessage::serialize`, after
/// `finalize` has filled in its length and type.
///
/// Claims what the bytes are in the byte order of the machine, which is what every `ByteOrder` holds.
#[verifier::external_body]
fn serialize_request(flags: u16, if_index: u32, state: u16, order: ByteOrder) -> (r: Vec<u8>)
    ensures
        r@ == request_bytes(flags, if_index, state, order.big()),
{
    let mut header = NetlinkHeader::default();
    header.flags = flags;
    let mut neighbour = NeighbourMessage::default();
    neighbour.header.ifindex = if_index;
    neighbour.header.state = NeighbourState::from(state);
    let inner = RouteNetlinkMessage::GetNeighbour(neighbour);
    let mut request = NetlinkMessage::new(header, NetlinkPayload::from(inner));
    request.finalize();
    let mut out = vec![0; request.header.length as usize];
    request.serialize(&mut out[..]);
    out
}

/// The length and the payload of the message that `netlink_packet_core::NetlinkMessage::deserialize`
/// finds at the start of the bytes on a machine with the given byte order, or `None` when it fails.
pub uninterp spec fn netlink_message(bytes: Seq<u8>, big: bool) -> Option<(u32, PayloadView)>;

/// Whether the bytes hold the type of a message that is parsed: a control message, or one of
/// `RTM_NEWNEIGH`, `RTM_DELNEIGH` and `RTM_GETNEIGH`. Messages of other types are stepped over.
pub open spec fn is_parsed_type(bytes: Seq<u8>, big: bool) -> bool {
    let kind = endian::u16_at(bytes, 4, big);
    1 <= kind <= 4 || 28 <= kind <= 30
}

/// Parses the message at the start of the bytes with
/// `netlink_packet_core::NetlinkMessage::deserialize`; `None` when that fails.
///
/// The parsers of some message types read past the end of malformed attributes; those of control and
/// neighbour messages check, so only these are admitted. Claims that the outcome depends on the bytes and
/// on the byte order of the machine, which is what every `ByteOrder` holds. Claims also that the length
/// of a parsed message covers its header and lies within the bytes.
#[verifier::external_body]
fn parse_message(bytes: &[u8], order: ByteOrder) -> (r: Option<Message>)
    requires
        bytes@.len() >= 6 ==> is_parsed_type(bytes@, order.big()),
    ensures
        message_view(r) == netlink_message(bytes@, order.big()),
        r matches Some(m) ==> 16 <= m.length <= bytes@.len(),
{
    let msg = NetlinkMessage::<RouteNetlinkMessage>::deserialize(bytes).ok()?;
    let payload = match msg.payload {
        NetlinkPayload::Done(_) => Payload::Done,
        NetlinkPayload::InnerMessage(RouteNetlinkMessage::NewNeighbour(n)) => Payload::NewNeighbour(Neighbour {
            family: match n.header.family { AddressFamily::Inet => Family::Inet, AddressFamily::Inet6 => Family::Inet6, _ => Family::Other },
            state: n.header.state.into(),
            if_index: n.header.ifindex,
            link_addrs: n.attributes.into_iter().map(|a| match a { NeighbourAttribute::LinkLocalAddress(v) => Some(v), _ => None }).collect(),
        }),
        NetlinkPayload::Error(e) => Payload::Failed(e.raw_code()),
        _ => Payload::Other,
    };
    Some(Message { length: msg.header.length, payload })
}

/// Builds the request for all reachable neighbours on an interface.
pub fn neighbour_request(if_index: u32) -> (r: Vec<u8>)
    ensures
        exists|big: bool| r@ == #[trigger] request_bytes(DUMP_REQUEST, if_index, NUD_REACHABLE, big),
        r@.len() == REQUEST_LEN,
        exists|big: bool| r@ == #[trigger] request_bytes(0x301, if_index, 2, big),
{
    let order: ByteOrder = ByteOrder::native();
    let r: Vec<u8> = serialize_request(DUMP_REQUEST, if_index, NUD_REACHABLE, order);
    assert(r@ == request_bytes(DUMP_REQUEST, if_index, NUD_REACHABLE, order.big()));
    r
}

/// Whether an entry is a reachable IP neighbour on the interface.
pub open spec fn is_wanted(n: Neighbour, if_index: u32) -> bool {
    &&& n.family == Family::Inet || n.family == Family::Inet6
    &&& n.state == NUD_REACHABLE
    &&& n.if_index == if_index
}

/// The address in an attribute, when it is a link-layer address of six bytes.
pub open spec fn mac_of(attr: Option<Vec<u8>>) -> Seq<MacAddr> {
    match attr {
        Some(a) => if a@.len() == 6 {
            seq![MacAddr(a@[0], a@[1], a@[2], a@[3], a@[4], a@[5])]
        } else {
            Seq::empty()
        },
        None => Seq::empty(),
    }
}

/// The addresses in the attributes, in order.
pub open spec fn macs_of(attrs: Seq<Option<Vec<u8>>>) -> Seq<MacAddr>
    decreases attrs.len(),
{
    if attrs.len() == 0 {
        Seq::empty()
    } else {
        macs_of(attrs.drop_last()) + mac_of(attrs.last())
    }
}

/// The addresses that a message adds.
pub open spec fn macs_in(p: Payload, if_index: u32) -> Seq<MacAddr> {
    match p {
        Payload::NewNeighbour(n) => if is_wanted(n, if_index) {
            macs_of(n.link_addrs@)
        } else {
            Seq::empty()
        },
        _ => Seq::empty(),
    }
}

/// How the reading of a datagram ended.
#[derive(Debug, Clone, Copy, PartialEq, Eq, Structural)]
pub enum ScanEnd {
    /// The dump is complete.
    Finished,
    /// The datagram is exhausted; another one follows.
    More,
    /// The kernel sent an error code.
    Failed(i32),
    /// The datagram holds something that is no message.
    Malformed,
}

/// The end that a message brings, if any.
pub open spec fn end_of(p: Payload) -> Option<ScanEnd> {
    match p {
        Payload::Done => Some(ScanEnd::Finished),
        Payload::Failed(code) => Some(ScanEnd::Failed(code)),
        _ => None,
    }
}

/// Takes the addresses out of a message; returns the end that the message brings, if any.
pub fn handle_message(payload: &Payload, if_index: u32, out: &mut Vec<MacAddr>) -> (r: Option<ScanEnd>)
    ensures
        r == end_of(*payload),
        final(out)@ == old(out)@ + macs_in(*payload, if_index),
{
    let ghost start = out@;
    match payload {
        Payload::Done => {
            assert(out@ =~= start + macs_in(*payload, if_index));
            Some(ScanEnd::Finished)
        },
        Payload::Failed(code) => {
            assert(out@ =~= start + macs_in(*payload, if_index));
            Some(ScanEnd::Failed(*code))
        },
        Payload::NewNeighbour(n) => {
            if (n.family == Family::Inet || n.family == Family::Inet6) && n.state == NUD_REACHABLE && n.if_index
                == if_index {
                let attrs: &Vec<Option<Vec<u8>>> = &n.link_addrs;
                let mut i: usize = 0;
                assert(attrs@.take(0) =~= Seq::empty());
                assert(out@ =~= start + macs_of(attrs@.take(0)));
                while i < attrs.len()
                    invariant
                        i <= attrs@.len(),
                        out@ == start + macs_of(attrs@.take(i as int)),
                    decreases attrs@.len() - i,
                {
                    assert(attrs@.take(i + 1).drop_last() =~= attrs@.take(i as int));
                    if let Some(a) = &attrs[i] {
                        if a.len() == 6 {
                            out.push(MacAddr(a[0], a[1], a[2], a[3], a[4], a[5]));
                        }
                    }
                    assert(out@ =~= start + macs_of(attrs@.take(i + 1)));
                    i = i + 1;
                }
                assert(attrs@.take(i as int) =~= attrs@);
            } else {
                assert(out@ =~= start + macs_in(*payload, if_index));
            }
            None
        },
        Payload::Other => {
            assert(out@ =~= start + macs_in(*payload, if_index));
            None
        },
    }
}

/// What the reading of a datagram of `size` bytes comes to, given the messages parsed in it: they
/// are handled in order until one ends the dump or the datagram is exhausted. When the messages run
/// out before that, the next one could not be parsed.
pub open spec fn replay(
    messages: Seq<Message>,
    offset: int,
    size: int,
    if_index: u32,
    found: Seq<MacAddr>,
) -> (ScanEnd, Seq<MacAddr>)
    decreases messages.len(),
{
    if messages.len() == 0 {
        (ScanEnd::Malformed, found)
    } else {
        let m = messages[0];
        let all = found + macs_in(m.payload, if_index);
        match end_of(m.payload) {
            Some(end) => (end, all),
            None => if offset + m.length == size {
                (ScanEnd::More, all)
            } else {
                replay(messages.drop_first(), offset + m.length, size, if_index, all)
            },
        }
    }
}

/// What the message at the start of the bytes says on a machine with the given byte order: what parsing
/// it gives, or, for a message of another type, only its length. `None` when there is no such message.
pub open spec fn message_at(bytes: Seq<u8>, big: bool) -> Option<(u32, PayloadView)> {
    if bytes.len() < 6 || is_parsed_type(bytes, big) {
        netlink_message(bytes, big)
    } else {
        let length = endian::u32_at(bytes, 0, big);
        if 16 <= length <= bytes.len() {
            Some((length as u32, PayloadView::Other))
        } else {
            None
        }
    }
}

/// Reads the message at the start of the bytes.
fn read_message(bytes: &[u8], order: ByteOrder) -> (r: Option<Message>)
    ensures
        message_view(r) == message_at(bytes@, order.big()),
        r matches Some(m) ==> 16 <= m.length <= bytes@.len(),
{
    if bytes.len() >= 6 {
        let kind: u16 = order.read_u16(bytes, 4);
        if !(1 <= kind && kind <= 4 || 28 <= kind && kind <= 30) {
            let length: u32 = order.read_u32(bytes, 0);
            return if 16 <= length && length as usize <= bytes.len() {
                Some(Message { length, payload: Payload::Other })
            } else {
                None
            };
        }
    }
    parse_message(bytes, order)
}

/// Whether the messages are those at the start of the buffer and one after another from there, up to the
/// given offset, on a machine with the given byte order.
pub open spec fn parsed(messages: Seq<Message>, buf: Seq<u8>, offset: int, end: int, big: bool) -> bool
    decreases messages.len(),
{
    if messages.len() == 0 {
        offset == end
    } else {
        &&& message_at(buf.skip(offset), big) == message_view(Some(messages[0]))
        &&& 16 <= messages[0].length
        &&& offset + messages[0].length <= buf.len()
        &&& parsed(messages.drop_first(), buf, offset + messages[0].length, end, big)
    }
}

/// Whether a reading of the buffer from an offset ends as told: with messages that account for the
/// outcome, and at bytes that are no message when it is `Malformed`.
pub open spec fn accounts_for(
    messages: Seq<Message>,
    stop: int,
    buf: Seq<u8>,
    offset: int,
    size: int,
    if_index: u32,
    found: Seq<MacAddr>,
    outcome: (ScanEnd, Seq<MacAddr>),
    big: bool,
) -> bool {
    &&& parsed(messages, buf, offset, stop, big)
    &&& offset <= stop <= buf.len()
    &&& outcome == replay(messages, offset, size, if_index, found)
    &&& outcome.0 == ScanEnd::Malformed ==> message_at(buf.skip(stop), big) is None
}

/// Reads the messages of a datagram of `size` bytes at the start of the buffer and collects the
/// addresses of the wanted neighbours.
pub fn scan_datagram(buf: &[u8], size: usize, if_index: u32, out: &mut Vec<MacAddr>) -> (r: ScanEnd)
    ensures
        exists|messages: Seq<Message>, stop: int, big: bool|
            accounts_for(messages, stop, buf@, 0, size as int, if_index, old(out)@, (r, final(out)@), big),
{
    scan_from(buf, 0, size, if_index, out, ByteOrder::native())
}

fn scan_from(
    buf: &[u8],
    offset: usize,
    size: usize,
    if_index: u32,
    out: &mut Vec<MacAddr>,
    order: ByteOrder,
) -> (r: ScanEnd)
    requires
        offset <= buf@.len(),
    ensures
        exists|messages: Seq<Message>, stop: int|
            accounts_for(
                messages,
                stop,
                buf@,
                offset as int,
                size as int,
                if_index,
                old(out)@,
                (r, final(out)@),
                order.big(),
            ),
    decreases buf@.len() - offset,
{
    let ghost big = order.big();
    let ghost (bytes, start, from, total) = (buf@, out@, offset as int, size as int);
    let rest: &[u8] = slice_subrange(buf, offset, buf.len());
    assert(rest@ =~= bytes.skip(from));
    let parsed_message: Option<Message> = read_message(rest, order);
    match parsed_message {
        None => {
            proof {
                let none = Seq::<Message>::empty();
                assert(accounts_for(none, from, bytes, from, total, if_index, start, (ScanEnd::Malformed, start), big));
            }
            ScanEnd::Malformed
        },
        Some(m) => {
            let ghost one = seq![m];
            let ghost after = from + m.length;
            proof {
                assert(one.drop_first() =~= Seq::empty());
                assert(parsed(one.drop_first(), bytes, after, after, big));
                assert(parsed(one, bytes, from, after, big));
            }
            match handle_message(&m.payload, if_index, out) {
                Some(end) => {
                    assert(accounts_for(one, after, bytes, from, total, if_index, start, (end, out@), big));
                    end
                },
                None => {
                    let next: usize = offset + m.length as usize;
                    if next == size {
                        assert(accounts_for(
                            one,
                            after,
                            bytes,
                            from,
                            total,
                            if_index,
                            start,
                            (ScanEnd::More, out@),
                            big,
                        ));
                        return ScanEnd::More;
                    }
                    let ghost all = out@;
                    let end: ScanEnd = scan_from(buf, next, size, if_index, out, order);
                    proof {
                        let (others, stop) = choose|others: Seq<Message>, stop: int|
                            accounts_for(others, stop, bytes, after, total, if_index, all, (end, out@), big);
                        let messages = one + others;
                        assert(messages.drop_first() =~= others);
                        assert(messages[0] == m);
                        assert(accounts_for(messages, stop, bytes, from, total, if_index, start, (end, out@), big));
                    }
                    end
                },
            }
        },
    }
}

/// A number can be read back from its bytes in either order.
proof fn lemma_u16_reads_back(v: u16, big: bool, front: Seq<u8>, rest: Seq<u8>)
    ensures
        endian::u16_at(front + u16_bytes(v, big) + rest, front.len() as int, big) == v,
        u16_bytes(v, big).len() == 2,
{
    let all = front + u16_bytes(v, big) + rest;
    let n = front.len() as int;
    assert(all[n] == u16_bytes(v, big)[0] && all[n + 1] == u16_bytes(v, big)[1]);
}

proof fn lemma_u32_reads_back(v: u32, big: bool, front: Seq<u8>, rest: Seq<u8>)
    ensures
        endian::u32_at(front + u32_bytes(v, big) + rest, front.len() as int, big) == v,
        u32_bytes(v, big).len() == 4,
{
    let all = front + u32_bytes(v, big) + rest;
    let n = front.len() as int;
    let b = u32_bytes(v, big);
    assert(all[n] == b[0] && all[n + 1] == b[1] && all[n + 2] == b[2] && all[n + 3] == b[3]);
}

/// A request reads as one of 28 bytes for neighbours, with the flags, the interface and the state that it was made
/// with, and with zeros everywhere else.
pub proof fn lemma_request_reads_back(flags: u16, if_index: u32, state: u16, big: bool)
    ensures
        ({
            let r = request_bytes(flags, if_index, state, big);
            &&& r.len() == 28
            &&& endian::u32_at(r, 0, big) == 28
            &&& endian::u16_at(r, 4, big) == 30
            &&& endian::u16_at(r, 6, big) == flags
            &&& endian::u32_at(r, 8, big) == 0
            &&& endian::u32_at(r, 12, big) == 0
            &&& endian::u32_at(r, 16, big) == 0
            &&& endian::u32_at(r, 20, big) == if_index
            &&& endian::u16_at(r, 24, big) == state
            &&& r[26] == 0 && r[27] == 0
        }),
{
    let r = request_bytes(flags, if_index, state, big);
    let (a, b, c, d) = (u32_bytes(28, big), u16_bytes(30, big), u16_bytes(flags, big), u32_bytes(0, big));
    let (z, e, f, y) = (seq![0u8, 0, 0, 0], u32_bytes(if_index, big), u16_bytes(state, big), seq![0u8, 0]);
    let none = Seq::<u8>::empty();
    assert(r.len() == 28);
    assert(endian::u32_at(r, 0, big) == 28) by {
        let rest = b + c + d + d + z + e + f + y;
        lemma_u32_reads_back(28, big, none, rest);
        assert(r =~= none + a + rest);
    }
    assert(endian::u16_at(r, 4, big) == 30) by {
        let rest = c + d + d + z + e + f + y;
        lemma_u16_reads_back(30, big, a, rest);
        assert(r =~= a + b + rest);
    }
    assert(endian::u16_at(r, 6, big) == flags) by {
        let rest = d + d + z + e + f + y;
        lemma_u16_reads_back(flags, big, a + b, rest);
        assert(r =~= (a + b) + c + rest);
    }
    assert(endian::u32_at(r, 8, big) == 0) by {
        let rest = d + z + e + f + y;
        lemma_u32_reads_back(0, big, a + b + c, rest);
        assert(r =~= (a + b + c) + d + rest);
    }
    assert(endian::u32_at(r, 12, big) == 0) by {
        let rest = z + e + f + y;
        lemma_u32_reads_back(0, big, a + b + c + d, rest);
        assert(r =~= (a + b + c + d) + d + rest);
    }
    assert(endian::u32_at(r, 16, big) == 0) by {
        assert(r[16] == z[0] && r[17] == z[1] && r[18] == z[2] && r[19] == z[3]);
    }
    assert(endian::u32_at(r, 20, big) == if_index) by {
        let rest = f + y;
        lemma_u32_reads_back(if_index, big, a + b + c + d + d + z, rest);
        assert(r =~= (a + b + c + d + d + z) + e + rest);
    }
    assert(endian::u16_at(r, 24, big) == state) by {
        lemma_u16_reads_back(state, big, a + b + c + d + d + z + e, y);
    }
    assert(r[26] == y[0] && r[27] == y[1]);
}

/// The addresses in attributes are taken in order, one from each link-layer address of six bytes and none from
/// anything else.
pub proof fn lemma_addresses_in_order(a: Seq<Option<Vec<u8>>>, b: Seq<Option<Vec<u8>>>, attr: Option<Vec<u8>>)
    ensures
        macs_of(a + b) == macs_of(a) + macs_of(b),
        macs_of(Seq::empty()) == Seq::<MacAddr>::empty(),
        attr is None || attr->0@.len() != 6 ==> macs_of(seq![attr]).len() == 0,
        attr is Some && attr->0@.len() == 6 ==> ({
            let m = attr->0@;
            macs_of(seq![attr]) == seq![MacAddr(m[0], m[1], m[2], m[3], m[4], m[5])]
        }),
    decreases b.len(),
{
    let one = seq![attr];
    assert(one.drop_last() =~= Seq::empty());
    assert(macs_of(one.drop_last()) =~= Seq::empty());
    assert(macs_of(one) =~= mac_of(attr));
    if b.len() == 0 {
        assert(a + b =~= a);
        assert(macs_of(a) + macs_of(b) =~= macs_of(a));
    } else {
        lemma_addresses_in_order(a, b.drop_last(), attr);
        assert((a + b).drop_last() =~= a + b.drop_last());
        assert(macs_of(a + b) =~= macs_of(a) + macs_of(b));
    }
}

/// Addresses come from reachable IP neighbours on the interface alone, and from all of them; only the end of a dump and
/// an error end the reading.
pub proof fn lemma_wanted_neighbours(p: Payload, if_index: u32)
    ensures
        p matches Payload::NewNeighbour(n) ==> {
            &&& n.family != Family::Other && n.state == 2 && n.if_index == if_index ==> macs_in(p, if_index) == macs_of(
                n.link_addrs@,
            )
            &&& n.family == Family::Other || n.state != 2 || n.if_index != if_index ==> macs_in(p, if_index).len() == 0
        },
        !(p is NewNeighbour) ==> macs_in(p, if_index).len() == 0,
        end_of(p) == Some(ScanEnd::Finished) <==> p is Done,
        end_of(p) matches Some(ScanEnd::Failed(code)) ==> p == Payload::Failed(code),
        p is Failed ==> end_of(p) == Some(ScanEnd::Failed(p->Failed_0)),
        end_of(p) is None <==> p is NewNeighbour || p is Other,
{
}

/// The addresses that messages add, one after another.
pub open spec fn macs_in_all(messages: Seq<Message>, if_index: u32) -> Seq<MacAddr>
    decreases messages.len(),
{
    if messages.len() == 0 {
        Seq::empty()
    } else {
        macs_in(messages[0].payload, if_index) + macs_in_all(messages.drop_first(), if_index)
    }
}

/// The number of bytes of messages, one after another.
pub open spec fn bytes_of(messages: Seq<Message>) -> int
    decreases messages.len(),
{
    if messages.len() == 0 {
        0
    } else {
        messages[0].length + bytes_of(messages.drop_first())
    }
}

/// The reading of a datagram keeps what was found before and adds the addresses of every message up to the one that
/// ends it: the first that ends the dump, or the one that the datagram ends with.
pub proof fn lemma_replay_collects(
    messages: Seq<Message>,
    offset: int,
    size: int,
    if_index: u32,
    found: Seq<MacAddr>,
) -> (k: int)
    ensures
        0 <= k <= messages.len(),
        ({
            let (end, all) = replay(messages, offset, size, if_index, found);
            &&& all == found + macs_in_all(messages.take(k), if_index)
            &&& forall|i: int| 0 <= i < k - 1 ==> end_of(#[trigger] messages[i].payload) is None
            &&& match end {
                ScanEnd::Malformed => k == messages.len() && (k > 0 ==> end_of(messages[k - 1].payload) is None),
                ScanEnd::More => k > 0 && end_of(messages[k - 1].payload) is None && offset + bytes_of(messages.take(k))
                    == size,
                _ => k > 0 && end_of(messages[k - 1].payload) == Some(end),
            }
        }),
    decreases messages.len(),
{
    if messages.len() == 0 {
        assert(messages.take(0) =~= Seq::empty());
        assert(found + macs_in_all(messages.take(0), if_index) =~= found);
        0
    } else {
        let m = messages[0];
        let here = macs_in(m.payload, if_index);
        assert(messages.take(1).drop_first() =~= Seq::empty());
        assert(macs_in_all(messages.take(1).drop_first(), if_index) =~= Seq::empty());
        assert(macs_in_all(messages.take(1), if_index) =~= here);
        assert(bytes_of(messages.take(1)) == m.length) by {
            assert(bytes_of(messages.take(1).drop_first()) == 0);
        }
        if end_of(m.payload) is Some || offset + m.length == size {
            1
        } else {
            let rest = messages.drop_first();
            let j = lemma_replay_collects(rest, offset + m.length, size, if_index, found + here);
            assert(messages.take(j + 1).drop_first() =~= rest.take(j));
            assert(messages.take(j + 1)[0] == m);
            assert(macs_in_all(messages.take(j + 1), if_index) == here + macs_in_all(rest.take(j), if_index));
            assert((found + here) + macs_in_all(rest.take(j), if_index) =~= found + (here + macs_in_all(
                rest.take(j),
                if_index,
            )));
            assert forall|i: int| 0 <= i < j implies end_of(#[trigger] messages[i].payload) is None by {
                if i > 0 {
                    assert(messages[i] == rest[i - 1]);
                }
            }
            if j > 0 {
                assert(messages[j] == rest[j - 1]);
            }
            j + 1
        }
    }
}

/// Control messages and messages on neighbours are parsed; a message of any other type is stepped over, given that its
/// length covers its header and lies within the bytes.
pub proof fn lemma_other_messages_are_stepped_over(bytes: Seq<u8>, big: bool)
    requires
        bytes.len() >= 6,
    ensures
        ({
            let kind = endian::u16_at(bytes, 4, big);
            let length = endian::u32_at(bytes, 0, big);
            if kind == 1 || kind == 2 || kind == 3 || kind == 4 || kind == 28 || kind == 29 || kind == 30 {
                message_at(bytes, big) == netlink_message(bytes, big)
            } else if 16 <= length <= bytes.len() {
                message_at(bytes, big) matches Some(m) && m.0 == length && m.1 is Other
            } else {
                message_at(bytes, big) is None
            }
        }),
{
}

} // verus!
