//! What a receiver reads back from the frames of a datagram.
use crate::checksum::{
    balanced, be128, be16, complement, fold, lemma_address_sum, lemma_complement_balances,
    lemma_fold_sum, lemma_word_sum_bounds, lemma_word_sum_concat, lemma_word_sum_split, pseudo_sum,
    word_sum,
};
use crate::decoder::{complete_header, holds, piece_of, AssemblyView, REASSEMBLY_LIFETIME};
use crate::packet::{
    extension_chain, flow_route, fragment_header, ipv4_options_allowed, parse_v6, spec_first_route,
    spec_parse, spec_route, spec_unicast, transport, transport_balanced, udp_datagram, Flow,
    Fragment, FragmentKey, ParsedView, RouteKey,
};
use crate::pieces::{
    law_consistent_fragments_complete, law_straight_orders_can_be_recorded, ready, run, Cut, Feed,
    Run,
};
use crate::reassembly::Limits;
use crate::shared::contents;
use crate::udp::{
    be_bytes, encodable, fragment_size, ip_header_len, is_fragment_frame, is_fragment_header,
    is_framed, is_whole_frame, lemma_part_count, part, part_count, part_end, udp_bytes,
    udp_checksum, udp_header, udp_ip,
};
use crate::wire::{
    ipv4_fields, ipv6_fields, is_ip_header, is_ipv4_header, IpAddress, IpHeader, SocketAddress,
    HOP_LIMIT, IPV6_FRAGMENT, UDP,
};
use bytes::Bytes;
use vstd::prelude::*;

verus! {

/// A datagram that can reach a receiver: it has a form on the wire, and both of
/// its ends can be named.
pub open spec fn deliverable(source: SocketAddress, destination: SocketAddress, len: int) -> bool {
    &&& encodable(source, destination, len)
    &&& destination.port != 0
    &&& spec_unicast(source.ip)
    &&& spec_unicast(destination.ip)
}

/// An IPv4 header that carries its own checksum is valid.
proof fn lemma_ipv4_header_balanced(s: Seq<u8>)
    requires
        s.len() == 20,
        be16(s, 10) == complement(word_sum(s.take(10)) + word_sum(s.skip(12))),
    ensures
        balanced(word_sum(s)),
{
    lemma_word_sum_split(s, 10);
    lemma_word_sum_split(s.skip(10), 2);
    let field = s.skip(10).take(2);
    assert(s.skip(10).skip(2) =~= s.skip(12));
    assert(word_sum(field) == be16(s, 10)) by {
        reveal_with_fuel(word_sum, 2);
        assert(field.skip(2) =~= Seq::<u8>::empty());
    }
    lemma_word_sum_bounds(s.take(10));
    lemma_word_sum_bounds(s.skip(12));
    lemma_complement_balances(word_sum(s.take(10)) + word_sum(s.skip(12)));
}

/// A packet whose first twenty bytes are an emitted IPv4 header is read as such.
pub proof fn lemma_ipv4_parses(
    frame: Seq<u8>,
    source: u32,
    destination: u32,
    protocol: u8,
    hop_limit: u8,
    len: int,
    id: int,
    flags: int,
)
    requires
        frame.len() == 20 + len,
        0 <= len <= 65515,
        0 <= id <= 65535,
        0 <= flags <= 65535,
        is_ipv4_header(frame.take(20), source, destination, protocol, len, hop_limit, id, flags),
    ensures
        frame[0] / 16 == 4,
        ipv4_fields(frame) is Some,
        ipv4_fields(frame)->0.source == source,
        ipv4_fields(frame)->0.destination == destination,
        ipv4_fields(frame)->0.protocol == protocol,
        ipv4_fields(frame)->0.hop_limit == hop_limit,
        ipv4_fields(frame)->0.header_len == 20,
        ipv4_fields(frame)->0.total_len == frame.len(),
        ipv4_fields(frame)->0.id == id,
        ipv4_fields(frame)->0.more == (flags / 0x2000 % 2 == 1),
        ipv4_fields(frame)->0.offset == flags % 0x2000 * 8,
        ipv4_options_allowed(frame.subrange(20, 20)),
{
    let h = frame.take(20);
    lemma_ipv4_header_balanced(h);
    assert forall|i: int| 0 <= i < 20 implies #[trigger] frame[i] == h[i] by {}
    assert(be16(frame, 6) == flags);
    assert(frame[6] == flags / 256);
    assert(frame[6] / 32 % 2 == flags / 0x2000 % 2);
}

/// The words of a datagram that carries its checksum balance with those of its
/// pseudo-header.
proof fn lemma_udp_balanced(source: SocketAddress, destination: SocketAddress, payload: Seq<u8>)
    requires
        encodable(source, destination, payload.len() as int),
    ensures
        transport_balanced(
            udp_ip(source, destination, 8 + payload.len() as int),
            udp_bytes(source, destination, payload),
        ),
{
    let header = udp_header(source, destination, payload);
    let datagram = udp_bytes(source, destination, payload);
    let len = 8 + payload.len();
    let checksum = udp_checksum(source, destination, payload);
    let rest = pseudo_sum(source.ip, destination.ip, UDP as int, len as int) + source.port
        + destination.port + len + word_sum(payload);
    lemma_word_sum_bounds(payload);
    lemma_address_sum(source.ip);
    lemma_address_sum(destination.ip);
    lemma_complement_balances(rest);
    assert(0 < checksum <= 65535);
    lemma_word_sum_concat(header, payload);
    assert(word_sum(header) == source.port + destination.port + len + checksum) by {
        reveal_with_fuel(word_sum, 5);
    }
}

/// A datagram is read back from its own bytes: its flow and its payload. What
/// follows it, such as padding, plays no part.
pub proof fn law_datagram_reads_back(
    source: SocketAddress,
    destination: SocketAddress,
    payload: Seq<u8>,
    padding: Seq<u8>,
    verified: bool,
)
    requires
        encodable(source, destination, payload.len() as int),
        destination.port != 0,
    ensures
        udp_datagram(
            udp_ip(source, destination, 8 + payload.len() + padding.len() as int),
            udp_bytes(source, destination, payload) + padding,
            verified,
        ) == Some((Flow { source, destination }, payload)),
{
    let datagram = udp_bytes(source, destination, payload);
    let header = udp_header(source, destination, payload);
    let s = datagram + padding;
    let checksum = udp_checksum(source, destination, payload);
    lemma_udp_balanced(source, destination, payload);
    lemma_word_sum_bounds(payload);
    lemma_address_sum(source.ip);
    lemma_address_sum(destination.ip);
    lemma_complement_balances(
        pseudo_sum(source.ip, destination.ip, UDP as int, 8 + payload.len() as int) + source.port
            + destination.port + 8 + payload.len() + word_sum(payload),
    );
    assert(0 < checksum <= 65535);
    assert(header.len() == 8);
    assert forall|i: int| 0 <= i < 8 implies #[trigger] s[i] == header[i] by {}
    assert(be16(s, 0) == source.port);
    assert(be16(s, 2) == destination.port);
    assert(be16(s, 4) == 8 + payload.len());
    assert(be16(s, 6) == checksum);
    assert(s.take(datagram.len() as int) =~= datagram);
    assert(s.subrange(8, datagram.len() as int) =~= payload);
}

/// What the device makes of one datagram whose checksum it completes: a computed
/// zero becomes all ones.
pub open spec fn completed_datagram(header: Seq<u8>, at: int, payload: Seq<u8>) -> Seq<u8> {
    let sum = complement(word_sum(header.skip(at) + payload));
    header.take(at + 6) + be_bytes(
        if sum == 0 {
            65535
        } else {
            sum
        },
    ) + payload
}

/// The header for one datagram with a partial checksum is what the device needs:
/// with the checksum completed, the frame is the one that carries the whole
/// datagram.
pub proof fn law_device_completes_a_datagram(
    header: Seq<u8>,
    source: SocketAddress,
    destination: SocketAddress,
    payload: Seq<u8>,
)
    requires
        encodable(source, destination, payload.len() as int),
        header.len() == ip_header_len(source) + 8,
        is_ip_header(
            header.take(ip_header_len(source)),
            udp_ip(source, destination, 8 + payload.len() as int),
        ),
        header.skip(ip_header_len(source)) == be_bytes(source.port as int) + be_bytes(
            destination.port as int,
        ) + be_bytes(8 + payload.len() as int) + be_bytes(
            fold(pseudo_sum(source.ip, destination.ip, UDP as int, 8 + payload.len() as int)),
        ),
    ensures
        is_whole_frame(
            completed_datagram(header, ip_header_len(source), payload),
            source,
            destination,
            udp_bytes(source, destination, payload),
        ),
{
    let at = ip_header_len(source);
    let udp = header.skip(at);
    let len = 8 + payload.len() as int;
    let pseudo = pseudo_sum(source.ip, destination.ip, UDP as int, len);
    let partial = fold(pseudo);
    let frame = completed_datagram(header, at, payload);
    lemma_word_sum_bounds(payload);
    lemma_address_sum(source.ip);
    lemma_address_sum(destination.ip);
    lemma_word_sum_concat(udp, payload);
    lemma_fold_sum(pseudo, 0);
    assert(word_sum(udp) == source.port + destination.port + len + partial) by {
        reveal_with_fuel(word_sum, 5);
    }
    lemma_fold_sum(pseudo, source.port + destination.port + len + word_sum(payload));
    assert(complement(word_sum(udp + payload)) == complement(
        pseudo + source.port + destination.port + len + word_sum(payload),
    ));
    assert(header.take(at + 6) =~= header.take(at) + udp.take(6));
    assert(frame.take(at) =~= header.take(at));
    assert(frame.skip(at) =~= udp_bytes(source, destination, payload));
}

/// A packet that was written with an IP header in front is read back as what
/// follows the header.
pub proof fn law_whole_packet_parses(frame: Seq<u8>, ip: IpHeader, body: Seq<u8>)
    requires
        ip.wf(),
        ip.payload_len == body.len(),
        body.len() <= ip.max_payload(),
        ip.hop_limit != 0,
        ip.source is V6 ==> transport(ip.protocol),
        spec_unicast(ip.source),
        spec_unicast(ip.destination),
        frame.len() == ip.spec_header_len() + body.len(),
        is_ip_header(frame.take(ip.spec_header_len()), ip),
        frame.skip(ip.spec_header_len()) == body,
    ensures
        spec_parse(frame) == Some(
            ParsedView {
                ip,
                header_len: ip.spec_header_len(),
                payload: body,
                fragment: None,
            },
        ),
{
    match (ip.source, ip.destination) {
        (IpAddress::V4(from), IpAddress::V4(to)) => {
            lemma_ipv4_parses(
                frame,
                from,
                to,
                ip.protocol,
                ip.hop_limit,
                body.len() as int,
                0,
                0x4000,
            );
            assert(frame.subrange(20, frame.len() as int) =~= frame.skip(20));
        },
        (IpAddress::V6(from), IpAddress::V6(to)) => {
            let h = frame.take(40);
            assert forall|i: int| 0 <= i < 40 implies #[trigger] frame[i] == h[i] by {}
            assert(be128(frame, 8) == be128(h, 8));
            assert(be128(frame, 24) == be128(h, 24));
            assert(frame.subrange(40, frame.len() as int) =~= frame.skip(40));
            assert(extension_chain(ip.protocol, body, 0, 0) == Some(
                (ip.protocol, body, None::<Fragment>),
            ));
        },
        _ => {},
    }
}

/// A frame that carries a whole datagram is read back as that datagram.
pub proof fn law_whole_frame_parses(
    frame: Seq<u8>,
    source: SocketAddress,
    destination: SocketAddress,
    payload: Seq<u8>,
)
    requires
        deliverable(source, destination, payload.len() as int),
        is_whole_frame(frame, source, destination, udp_bytes(source, destination, payload)),
    ensures
        spec_parse(frame) == Some(
            ParsedView {
                ip: udp_ip(source, destination, 8 + payload.len() as int),
                header_len: ip_header_len(source),
                payload: udp_bytes(source, destination, payload),
                fragment: None,
            },
        ),
{
    let datagram = udp_bytes(source, destination, payload);
    assert(datagram.len() == 8 + payload.len());
    law_whole_packet_parses(frame, udp_ip(source, destination, datagram.len() as int), datagram);
}

/// A frame that carries a part of a datagram is read back as that part, in its
/// place.
pub proof fn law_fragment_frame_parses(
    frame: Seq<u8>,
    source: SocketAddress,
    destination: SocketAddress,
    id: u32,
    offset: int,
    more: bool,
    piece: Seq<u8>,
)
    requires
        is_fragment_frame(frame, source, destination, id, offset, more, piece),
        source.ip is V4 == destination.ip is V4,
        spec_unicast(source.ip),
        spec_unicast(destination.ip),
        piece.len() > 0,
        offset >= 0,
        offset % 8 == 0,
        more ==> piece.len() % 8 == 0,
        more || offset > 0,
        offset + piece.len() <= max_assembled(source.ip),
        source.ip is V6 ==> piece.len() <= 65527,
    ensures
        spec_parse(frame) == Some(
            ParsedView {
                ip: udp_ip(source, destination, piece.len() as int),
                header_len: ip_header_len(source),
                payload: piece,
                fragment: Some(
                    Fragment {
                        id: if source.ip is V4 {
                            (id as int % 0x1_0000) as u32
                        } else {
                            id
                        },
                        offset: offset as usize,
                        more,
                        prefix_len: 0,
                    },
                ),
            },
        ),
{
    match (source.ip, destination.ip) {
        (IpAddress::V4(from), IpAddress::V4(to)) => {
            let flags = (if more {
                0x2000int
            } else {
                0
            }) + offset / 8;
            lemma_ipv4_parses(
                frame,
                from,
                to,
                UDP,
                HOP_LIMIT,
                piece.len() as int,
                id as int % 0x1_0000,
                flags,
            );
            assert(frame.subrange(20, frame.len() as int) =~= frame.skip(20));
        },
        (IpAddress::V6(from), IpAddress::V6(to)) => {
            lemma_ipv6_fragment_parses(frame, from, to, id, offset, more, piece);
        },
        _ => {},
    }
}

/// An IPv6 packet that starts with the emitted headers of a fragment is read as
/// such.
proof fn lemma_ipv6_fragment_parses(
    frame: Seq<u8>,
    from: u128,
    to: u128,
    id: u32,
    offset: int,
    more: bool,
    piece: Seq<u8>,
)
    requires
        frame.len() == 48 + piece.len(),
        is_fragment_header(
            frame.take(48),
            IpAddress::V6(from),
            IpAddress::V6(to),
            id,
            offset,
            more,
            piece.len() as int,
        ),
        frame.skip(48) == piece,
        0 < piece.len() <= 65527,
        0 <= offset <= 65535,
        offset % 8 == 0,
        more || offset > 0,
    ensures
        frame[0] / 16 == 6,
        parse_v6(frame) == Some(
            ParsedView {
                ip: IpHeader {
                    source: IpAddress::V6(from),
                    destination: IpAddress::V6(to),
                    protocol: UDP,
                    payload_len: piece.len() as usize,
                    hop_limit: HOP_LIMIT,
                },
                header_len: 40,
                payload: piece,
                fragment: Some(Fragment { id, offset: offset as usize, more, prefix_len: 0 }),
            },
        ),
{
    let first = frame.take(48);
    let h = first.take(40);
    let s = frame.subrange(40, frame.len() as int);
    assert forall|i: int| 0 <= i < 40 implies #[trigger] frame[i] == h[i] by {}
    assert(be128(frame, 8) == be128(h, 8));
    assert(be128(frame, 24) == be128(h, 24));
    assert(be16(frame, 4) == 8 + piece.len());
    assert(s.subrange(2, 8) =~= first.subrange(42, 48));
    assert(s[0] == first[40]);
    assert(s.skip(8) =~= frame.skip(48));
    let f = s.subrange(2, 8);
    assert(be16(f, 0) == f[0] * 256 + f[1]);
    assert(be16(f, 0) == offset + (if more {
        1int
    } else {
        0
    }));
    assert(be16(f, 0) / 8 == offset / 8);
    assert((f[1] % 2 == 1) == more);
    assert(extension_chain(IPV6_FRAGMENT, s, 0, 0) == fragment_header(s, 0));
    assert(ipv6_fields(frame) is Some);
}

/// The most that the parts of one datagram can cover in a family.
pub open spec fn max_assembled(address: IpAddress) -> int {
    if address is V4 {
        65515
    } else {
        65535
    }
}

/// The parts of a datagram are not empty, start at multiples of eight, and all
/// but the last have the full size.
proof fn lemma_part_bounds(n: int, size: int, i: int)
    requires
        0 < n,
        0 < size,
        size % 8 == 0,
        0 <= i < part_count(n, size),
    ensures
        0 <= i * size < part_end(n, size, i) <= n,
        (i * size) % 8 == 0,
        i + 1 < part_count(n, size) ==> part_end(n, size, i) == i * size + size,
        i + 1 == part_count(n, size) ==> part_end(n, size, i) == n,
        part_end(n, size, i) - i * size <= size,
        i > 0 ==> i * size >= size,
{
    lemma_part_count(n, size);
    let count = part_count(n, size);
    assert((i + 1) * size == i * size + size) by (nonlinear_arith);
    assert(0 <= i * size <= (count - 1) * size) by (nonlinear_arith)
        requires
            0 <= i <= count - 1,
            0 < size,
    ;
    if i + 1 < count {
        assert((i + 1) * size <= (count - 1) * size) by (nonlinear_arith)
            requires
                i + 1 <= count - 1,
                0 < size,
        ;
    }
    if i > 0 {
        assert(i * size >= size) by (nonlinear_arith)
            requires
                i >= 1,
                0 < size,
        ;
    }
    let k = size / 8;
    assert(i * size == 8 * (i * k)) by (nonlinear_arith)
        requires
            size == 8 * k,
    ;
}

/// The fragments of a datagram, arriving in some order.
pub struct Arrival {
    pub source: SocketAddress,
    pub destination: SocketAddress,
    pub payload: Seq<u8>,
    pub id: u32,
    pub mtu: int,
    pub frames: Seq<Bytes>,
    pub order: Seq<int>,
    pub times: Seq<u64>,
}

impl Arrival {
    pub open spec fn datagram(self) -> Seq<u8> {
        udp_bytes(self.source, self.destination, self.payload)
    }

    pub open spec fn cut(self) -> Cut {
        Cut {
            key: FragmentKey {
                source: self.source.ip,
                destination: self.destination.ip,
                protocol: if self.source.ip is V4 {
                    UDP
                } else {
                    0
                },
                id: if self.source.ip is V4 {
                    (self.id as int % 0x1_0000) as u32
                } else {
                    self.id
                },
            },
            protocol: UDP,
            prefix_len: 0,
            headers: Seq::new(
                self.frames.len(),
                |i: int| ip_header_len(self.source) as usize,
            ),
            bytes: self.datagram(),
            cuts: Seq::new(
                self.frames.len() + 1,
                |i: int|
                    if i == self.frames.len() {
                        self.datagram().len() as int
                    } else {
                        i * fragment_size(self.source, self.mtu)
                    },
            ),
            expires: (self.times[0] + REASSEMBLY_LIFETIME) as u64,
            binding: None,
        }
    }

    /// The frames with their times, in the order in which they come.
    pub open spec fn feed(self) -> Feed {
        Feed {
            cut: self.cut(),
            frames: Seq::new(
                self.order.len(),
                |k: int| (contents(self.frames[self.order[k]]), self.times[k]),
            ),
            order: self.order,
        }
    }

    /// Each fragment of a deliverable datagram comes once, within the lifetime
    /// that the first of them starts.
    pub open spec fn each_once(self) -> bool {
        let n = self.frames.len() as int;
        &&& deliverable(self.source, self.destination, self.payload.len() as int)
        &&& 1280 <= self.mtu <= 65535
        &&& ip_header_len(self.source) + self.datagram().len() > self.mtu
        &&& is_framed(
            self.frames,
            self.mtu,
            self.source,
            self.destination,
            self.datagram(),
            self.id,
        )
        &&& self.order.len() == n
        &&& self.times.len() == n
        &&& forall|k: int| 0 <= k < n ==> 0 <= #[trigger] self.order[k] < n
        &&& forall|j: int, k: int|
            0 <= j < k < n ==> #[trigger] self.order[j] != #[trigger] self.order[k]
        &&& forall|i: int| 0 <= i < n ==> #[trigger] self.feed().came(n).contains(i)
        &&& forall|k: int|
            0 <= k < n ==> #[trigger] self.times[k] < self.times[0] + REASSEMBLY_LIFETIME
                && self.times[k] + REASSEMBLY_LIFETIME <= u64::MAX
    }

    /// What has come never falls apart into more runs than the decoder records.
    pub open spec fn wf(self) -> bool {
        &&& self.each_once()
        &&& forall|k: int|
            0 <= k < self.frames.len() ==> #[trigger] self.feed().recordable_at(k)
    }
}

/// The parts that an encoder cuts are those of the frames.
proof fn lemma_cut_part(arrival: Arrival, i: int)
    requires
        arrival.each_once(),
        0 <= i < arrival.frames.len(),
    ensures
        ({
            let cut = arrival.cut();
            let size = fragment_size(arrival.source, arrival.mtu);
            &&& arrival.frames.len() == part_count(arrival.datagram().len() as int, size)
            &&& cut.start(i) == i * size
            &&& cut.end(i) == part_end(arrival.datagram().len() as int, size, i)
            &&& cut.data(i) == part(arrival.datagram(), size, i)
            &&& 0 <= cut.start(i) < cut.end(i) <= cut.bytes.len()
            &&& cut.start(i) % 8 == 0
            &&& i + 1 < arrival.frames.len() ==> cut.data(i).len() == size
        }),
{
    let n = arrival.datagram().len() as int;
    let size = fragment_size(arrival.source, arrival.mtu);
    lemma_part_bounds(n, size, i);
    assert((i + 1) * size == i * size + size) by (nonlinear_arith);
}

/// The cut of a datagram that does not fit the link is well formed.
proof fn lemma_cut(arrival: Arrival)
    requires
        arrival.each_once(),
    ensures
        arrival.cut().wf(),
        arrival.cut().count() == arrival.frames.len(),
{
    let cut = arrival.cut();
    let d = arrival.datagram();
    let size = fragment_size(arrival.source, arrival.mtu);
    let count = arrival.frames.len() as int;
    assert(d.len() == 8 + arrival.payload.len());
    lemma_part_count(d.len() as int, size);
    lemma_cut_part(arrival, 0);
    lemma_cut_part(arrival, count - 1);
    assert(0 * size == 0 && 1 * size == size);
    assert(cut.data(0).len() >= 8) by {
        if count == 1 {
            assert(part_end(d.len() as int, size, 0) == d.len());
        }
    }
    assert forall|i: int, j: int| 0 <= i < j < cut.cuts.len() implies #[trigger] cut.cuts[i]
        < #[trigger] cut.cuts[j] by {
        lemma_cut_part(arrival, i);
        assert(i * size + size <= j * size) by (nonlinear_arith)
            requires
                i + 1 <= j,
                0 < size,
        ;
    }
    assert forall|i: int| 0 <= i < cut.count() - 1 implies #[trigger] cut.data(i).len() % 8
        == 0 by {
        lemma_cut_part(arrival, i);
    }
}

/// What a frame of the datagram says.
spec fn fragment_view(arrival: Arrival, i: int) -> ParsedView {
    let cut = arrival.cut();
    ParsedView {
        ip: udp_ip(arrival.source, arrival.destination, cut.data(i).len() as int),
        header_len: ip_header_len(arrival.source),
        payload: cut.data(i),
        fragment: Some(
            Fragment {
                id: cut.key.id,
                offset: cut.start(i) as usize,
                more: i + 1 < arrival.frames.len(),
                prefix_len: 0,
            },
        ),
    }
}

/// A frame carries its part of the datagram.
spec fn carries_part(arrival: Arrival, i: int) -> bool {
    let cut = arrival.cut();
    let more = i + 1 < arrival.frames.len();
    let (start, piece) = (cut.start(i), cut.data(i));
    &&& is_fragment_frame(
        contents(arrival.frames[i]),
        arrival.source,
        arrival.destination,
        arrival.id,
        start,
        more,
        piece,
    )
    &&& arrival.source.ip is V4 == arrival.destination.ip is V4
    &&& spec_unicast(arrival.source.ip)
    &&& spec_unicast(arrival.destination.ip)
    &&& piece.len() > 0
    &&& start >= 0
    &&& start % 8 == 0
    &&& more ==> piece.len() % 8 == 0
    &&& more || start > 0
    &&& start + piece.len() <= max_assembled(arrival.source.ip)
    &&& arrival.source.ip is V6 ==> piece.len() <= 65527
}

proof fn lemma_carries_part(arrival: Arrival, i: int)
    requires
        arrival.each_once(),
        0 <= i < arrival.frames.len(),
    ensures
        carries_part(arrival, i),
{
    let cut = arrival.cut();
    let size = fragment_size(arrival.source, arrival.mtu);
    lemma_cut_part(arrival, i);
    lemma_part_bounds(arrival.datagram().len() as int, size, i);
    assert(is_fragment_frame(
        contents(arrival.frames[i]),
        arrival.source,
        arrival.destination,
        arrival.id,
        i * size,
        i + 1 < arrival.frames.len(),
        part(arrival.datagram(), size, i),
    ));
    assert(cut.data(i).len() == cut.end(i) - cut.start(i));
}

proof fn lemma_part_parses(arrival: Arrival, i: int)
    requires
        carries_part(arrival, i),
    ensures
        spec_parse(contents(arrival.frames[i])) == Some(fragment_view(arrival, i)),
{
    law_fragment_frame_parses(
        contents(arrival.frames[i]),
        arrival.source,
        arrival.destination,
        arrival.id,
        arrival.cut().start(i),
        i + 1 < arrival.frames.len(),
        arrival.cut().data(i),
    );
}

proof fn lemma_frame_parses(arrival: Arrival, i: int)
    requires
        arrival.each_once(),
        0 <= i < arrival.frames.len(),
    ensures
        spec_parse(contents(arrival.frames[i])) == Some(fragment_view(arrival, i)),
{
    lemma_carries_part(arrival, i);
    lemma_part_parses(arrival, i);
}

/// A frame of the datagram, as the decoder reads it.
proof fn lemma_frame_is_piece(arrival: Arrival, i: int, expires: u64)
    requires
        arrival.each_once(),
        0 <= i < arrival.frames.len(),
    ensures
        ({
            let p = spec_parse(contents(arrival.frames[i]));
            &&& p is Some
            &&& (p->0).fragment is Some
            &&& piece_of(p->0, expires, None) == arrival.cut().piece(i, expires)
            &&& (p->0).payload == arrival.cut().data(i)
            &&& IpHeader { payload_len: 0, ..(p->0).ip } == udp_ip(
                arrival.source,
                arrival.destination,
                0,
            )
        }),
{
    lemma_frame_parses(arrival, i);
    lemma_view_is_piece(arrival, i, expires);
}

proof fn lemma_view_is_piece(arrival: Arrival, i: int, expires: u64)
    requires
        arrival.each_once(),
        0 <= i < arrival.frames.len(),
    ensures
        piece_of(fragment_view(arrival, i), expires, None) == arrival.cut().piece(i, expires),
{
}

/// The frames of a datagram are a feed of its parts.
pub proof fn lemma_feed(arrival: Arrival)
    requires
        arrival.each_once(),
    ensures
        arrival.feed().each_once(),
        arrival.wf() ==> arrival.feed().wf(),
{
    let feed = arrival.feed();
    lemma_cut(arrival);
    assert forall|k: int| 0 <= k < feed.frames.len() implies #[trigger] feed.carries(k) by {
        lemma_frame_is_piece(arrival, arrival.order[k], 0);
    }
    assert forall|k: int| 0 <= k < feed.frames.len() implies (#[trigger] feed.frames[k]).1
        < feed.cut.expires && feed.frames[k].1 + REASSEMBLY_LIFETIME <= u64::MAX by {
        assert(arrival.times[k] < arrival.times[0] + REASSEMBLY_LIFETIME);
        assert(arrival.times[0] + REASSEMBLY_LIFETIME <= u64::MAX);
    }
}

/// A fragmented datagram is read back once, whole, when its last fragment comes:
/// the decoder hands out one packet, in which `law_datagram_reads_back` finds the
/// flow and the payload, and keeps nothing of it.
pub proof fn law_fragments_read_back(s: Seq<AssemblyView>, limits: Limits, arrival: Arrival)
    requires
        arrival.wf(),
        ready(arrival.cut(), s, limits, Set::empty(), arrival.times[0]),
    ensures
        ({
            let out = run(s, limits, arrival.feed().frames);
            &&& out.packets.len() == 1
            &&& udp_datagram(out.packets[0].0, out.packets[0].1, false) == Some(
                (
                    Flow { source: arrival.source, destination: arrival.destination },
                    arrival.payload,
                ),
            )
            &&& !holds(out.state, arrival.cut().key)
        }),
{
    let feed = arrival.feed();
    let n = feed.frames.len() as int;
    lemma_cut(arrival);
    lemma_feed(arrival);
    law_consistent_fragments_complete(s, limits, feed, 0);
    lemma_frame_is_piece(arrival, arrival.order[n - 1], 0);
    law_datagram_reads_back(
        arrival.source,
        arrival.destination,
        arrival.payload,
        Seq::empty(),
        false,
    );
    assert(arrival.datagram() + Seq::<u8>::empty() =~= arrival.datagram());
    assert(arrival.datagram().len() == 8 + arrival.payload.len());
}

/// A datagram that fits the link is read back from its one frame, at any time and
/// by any decoder, which it leaves as it was.
pub proof fn law_whole_datagrams_read_back(
    s: Seq<AssemblyView>,
    limits: Limits,
    frames: Seq<Bytes>,
    mtu: int,
    source: SocketAddress,
    destination: SocketAddress,
    payload: Seq<u8>,
    id: u32,
    now: u64,
)
    requires
        deliverable(source, destination, payload.len() as int),
        ip_header_len(source) + 8 + payload.len() <= mtu,
        is_framed(frames, mtu, source, destination, udp_bytes(source, destination, payload), id),
    ensures
        ({
            let out = run(s, limits, seq![(contents(frames[0]), now)]);
            &&& out.state == s
            &&& out.limits == limits
            &&& out.packets.len() == 1
            &&& udp_datagram(out.packets[0].0, out.packets[0].1, false) == Some(
                (Flow { source, destination }, payload),
            )
        }),
{
    let datagram = udp_bytes(source, destination, payload);
    let frame = contents(frames[0]);
    let feed = seq![(frame, now)];
    assert(datagram.len() == 8 + payload.len());
    law_whole_frame_parses(frame, source, destination, payload);
    law_datagram_reads_back(source, destination, payload, Seq::empty(), false);
    assert(datagram + Seq::<u8>::empty() =~= datagram);
    assert(feed.drop_last() =~= Seq::<(Seq<u8>, u64)>::empty());
    assert(run(s, limits, feed.drop_last()) == (Run { state: s, limits, packets: Seq::empty() }));
}

/// The route of a part of a datagram, and of its flow where the part names it.
proof fn lemma_piece_route(cut: Cut, p: ParsedView, i: int)
    requires
        cut.wf(),
        0 <= i < cut.count(),
        p.fragment is Some,
        piece_of(p, 0, None) == cut.piece(i, 0),
    ensures
        spec_route(p) == Some(RouteKey::Fragment(cut.key)),
        i > 0 ==> spec_first_route(p) is None,
        i == 0 ==> spec_first_route(p) == flow_route(p),
{
    assert(piece_of(p, 0, None).fragment == p.fragment->0);
    if i > 0 {
        assert(cut.cuts[0] < cut.cuts[i]);
        assert(cut.cuts[i] < cut.cuts[i + 1]);
    }
    if i + 1 < cut.count() {
        assert(cut.cuts[i + 1] < cut.cuts[cut.count()]);
    }
}

/// The flow that the first bytes of a datagram name.
pub proof fn lemma_flow_route(
    p: ParsedView,
    source: SocketAddress,
    destination: SocketAddress,
    payload: Seq<u8>,
    len: int,
)
    requires
        8 <= len <= 8 + payload.len(),
        p.payload == udp_bytes(source, destination, payload).take(len),
        p.ip.source == source.ip,
        p.ip.destination == destination.ip,
        p.ip.protocol == UDP,
        source.port != 0,
        destination.port != 0,
    ensures
        flow_route(p) == Some(RouteKey::Flow(UDP, (Flow { source, destination }))),
{
    let header = udp_header(source, destination, payload);
    assert forall|k: int| 0 <= k < 4 implies #[trigger] p.payload[k] == header[k] by {}
    assert(be16(p.payload, 0) == source.port);
    assert(be16(p.payload, 2) == destination.port);
}

/// The routes of one fragment of a datagram.
proof fn lemma_fragment_route(arrival: Arrival, i: int)
    requires
        arrival.each_once(),
        0 <= i < arrival.frames.len(),
    ensures
        ({
            let p = spec_parse(contents(arrival.frames[i]))->0;
            &&& spec_route(p) == Some(RouteKey::Fragment(arrival.cut().key))
            &&& i > 0 ==> spec_first_route(p) is None
            &&& i == 0 ==> spec_first_route(p) == flow_route(p)
            &&& i == 0 ==> flow_route(p) == Some(
                RouteKey::Flow(
                    UDP,
                    Flow { source: arrival.source, destination: arrival.destination },
                ),
            )
        }),
{
    let cut = arrival.cut();
    let p = spec_parse(contents(arrival.frames[i]))->0;
    lemma_cut(arrival);
    lemma_frame_is_piece(arrival, i, 0);
    lemma_piece_route(cut, p, i);
    if i == 0 {
        lemma_cut_part(arrival, 0);
        let len = cut.end(0);
        assert(complete_header(UDP, cut.data(0)) || cut.data(0).len() >= 8) by {
            let size = fragment_size(arrival.source, arrival.mtu);
            assert(1 * size == size);
        }
        assert(p.payload =~= arrival.datagram().take(len));
        lemma_flow_route(p, arrival.source, arrival.destination, arrival.payload, len);
    }
}

/// All fragments of a datagram have one route, and the first of them names the
/// flow that a whole frame of it would have had.
pub proof fn law_fragments_share_a_route(arrival: Arrival, i: int, j: int)
    requires
        arrival.each_once(),
        0 <= i < arrival.frames.len(),
        0 <= j < arrival.frames.len(),
    ensures
        ({
            let first = spec_parse(contents(arrival.frames[0]))->0;
            let a = spec_parse(contents(arrival.frames[i]))->0;
            let b = spec_parse(contents(arrival.frames[j]))->0;
            &&& spec_route(a) == spec_route(b)
            &&& spec_route(a) == Some(RouteKey::Fragment(arrival.cut().key))
            &&& spec_first_route(first) == Some(
                RouteKey::Flow(
                    UDP,
                    Flow { source: arrival.source, destination: arrival.destination },
                ),
            )
            &&& i > 0 ==> spec_first_route(a) is None
        }),
{
    lemma_fragment_route(arrival, 0);
    lemma_fragment_route(arrival, i);
    lemma_fragment_route(arrival, j);
}

/// Fragments that come in the order in which they were sent, or in reverse, can
/// always be recorded.
pub proof fn law_straight_orders_are_recordable(arrival: Arrival)
    requires
        arrival.each_once(),
        (forall|k: int| 0 <= k < arrival.order.len() ==> #[trigger] arrival.order[k] == k) || (
        forall|k: int|
            0 <= k < arrival.order.len() ==> #[trigger] arrival.order[k] == arrival.order.len() - 1
                - k),
    ensures
        arrival.wf(),
{
    lemma_feed(arrival);
    law_straight_orders_can_be_recorded(arrival.feed());
}

/// The frames of a datagram that does not fit the link, read in the order in which they
/// were made or in reverse, give the datagram back with the last of them, and nothing
/// before.
pub proof fn law_straight_frames_read_back(
    s: Seq<AssemblyView>,
    limits: Limits,
    arrival: Arrival,
    k: int,
)
    requires
        arrival.each_once(),
        (forall|j: int| 0 <= j < arrival.order.len() ==> #[trigger] arrival.order[j] == j) || (
        forall|j: int|
            0 <= j < arrival.order.len() ==> #[trigger] arrival.order[j] == arrival.order.len() - 1
                - j),
        ready(arrival.cut(), s, limits, Set::empty(), arrival.times[0]),
        0 <= k < arrival.frames.len(),
    ensures
        run(s, limits, arrival.feed().frames.take(k)).packets.len() == 0,
        ({
            let out = run(s, limits, arrival.feed().frames);
            &&& out.packets.len() == 1
            &&& udp_datagram(out.packets[0].0, out.packets[0].1, false) == Some(
                (
                    Flow { source: arrival.source, destination: arrival.destination },
                    arrival.payload,
                ),
            )
        }),
{
    law_straight_orders_are_recordable(arrival);
    lemma_feed(arrival);
    law_fragments_read_back(s, limits, arrival);
    law_consistent_fragments_complete(s, limits, arrival.feed(), k);
}

/// No frame of a datagram is longer than the link carries.
pub proof fn law_frames_fit_the_link(
    frames: Seq<Bytes>,
    mtu: int,
    source: SocketAddress,
    destination: SocketAddress,
    datagram: Seq<u8>,
    id: u32,
    i: int,
)
    requires
        1280 <= mtu <= 65535,
        datagram.len() > 0,
        is_framed(frames, mtu, source, destination, datagram, id),
        0 <= i < frames.len(),
    ensures
        contents(frames[i]).len() <= mtu,
{
    if ip_header_len(source) + datagram.len() > mtu {
        let size = fragment_size(source, mtu);
        lemma_part_bounds(datagram.len() as int, size, i);
        assert(is_fragment_frame(
            contents(frames[i]),
            source,
            destination,
            id,
            i * size,
            i + 1 < frames.len(),
            part(datagram, size, i),
        ));
        assert(part(datagram, size, i).len() <= size);
    }
}

} // verus!
