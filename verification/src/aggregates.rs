//! What the device is told of a packet that it completes or cuts fits the packet.
use crate::checksum::{
    be16, complement, fold, lemma_address_sum, lemma_word_sum_split, pseudo_sum, word_sum,
};
use crate::endpoint::{bounded, is_shared_header, Action};
use crate::offload::{
    datagram_at, gso_header, law_aggregates_are_accepted, law_offloaded_packets_are_accepted, normalized,
    udp_header_fields, with_lengths, with_word, Metadata, VirtioHeader,
};
use crate::packet::{
    extension_chain, spec_parse, spec_unicast, transport, transport_at, udp_datagram, Flow, Fragment,
};
use crate::roundtrip::{
    completed_datagram, law_device_completes_a_datagram, law_whole_packet_parses, lemma_ipv4_parses,
};
use crate::segment::{completed, is_tcp_packet, law_device_completes_the_checksum};
use crate::shared::contents;
use crate::tcp_storage::joined;
use crate::udp::{
    be_bytes, encodable, ip_header_len, is_whole_frame, max_datagram, udp_bytes, udp_ip,
};
use crate::wire::{
    is_ip_header, law_options_fill_whole_words, IpAddress, IpHeader, SocketAddress, TcpFields, TCP,
    UDP,
};
use bytes::Bytes;
use vstd::prelude::*;

verus! {

/// What the device does to a packet whose checksum it completes: it puts the complement
/// of the sum from one position on in a place behind that position. A computed zero
/// becomes all ones where a zero would mean that there is no checksum.
pub open spec fn completes(frame: Seq<u8>, start: int, offset: int, marks_zero: bool) -> Seq<u8> {
    let sum = complement(word_sum(frame.skip(start)));
    with_word(
        frame,
        start + offset,
        if marks_zero && sum == 0 {
            65535
        } else {
            sum
        },
    )
}

/// Behind a written IP header stands the transport that it names, and its lengths are
/// those that the packet has.
proof fn lemma_written_packet(frame: Seq<u8>, ip: IpHeader)
    requires
        ip.wf(),
        ip.payload_len <= ip.max_payload(),
        ip.source is V6 ==> transport(ip.protocol),
        frame.len() == ip.spec_header_len() + ip.payload_len,
        is_ip_header(frame.take(ip.spec_header_len()), ip),
    ensures
        ip.source is V4 ==> frame[0] / 16 == 4 && transport_at(frame) == Some((ip.protocol, 20int)),
        ip.source is V6 ==> frame[0] / 16 == 6 && transport_at(frame) == Some((ip.protocol, 40int)),
        with_lengths(frame) == Ok::<Seq<u8>, Seq<char>>(frame),
{
    let len = ip.payload_len as int;
    let h = frame.take(ip.spec_header_len());
    assert forall|i: int| 0 <= i < ip.spec_header_len() implies #[trigger] frame[i] == h[i] by {}
    match (ip.source, ip.destination) {
        (IpAddress::V4(from), IpAddress::V4(to)) => {
            lemma_ipv4_parses(frame, from, to, ip.protocol, ip.hop_limit, len, 0, 0x4000);
            let blank = with_word(with_word(frame, 2, frame.len() as int), 10, 0);
            let t = blank.take(20);
            assert(be16(h, 2) == frame.len());
            lemma_word_sum_split(t, 10);
            lemma_word_sum_split(t.skip(10), 2);
            assert(t.take(10) =~= h.take(10));
            assert(t.skip(10).skip(2) =~= h.skip(12));
            assert(word_sum(t.skip(10).take(2)) == 0) by {
                reveal_with_fuel(word_sum, 2);
                assert(t.skip(10).take(2).skip(2) =~= Seq::<u8>::empty());
            }
            assert(word_sum(t) == word_sum(h.take(10)) + word_sum(h.skip(12)));
            assert(with_word(blank, 10, be16(h, 10)) =~= frame);
        },
        (IpAddress::V6(from), IpAddress::V6(to)) => {
            let s = frame.subrange(40, frame.len() as int);
            assert(be16(frame, 4) == len);
            assert(extension_chain(ip.protocol, s, 0, 0) == Some(
                (ip.protocol, s, None::<Fragment>),
            ));
            assert(with_word(frame, 4, len) =~= frame);
        },
        _ => {},
    }
}

/// One datagram whose length is right is accepted under the header that describes it.
proof fn lemma_datagram_accepted(h: VirtioHeader, frame: Seq<u8>, at: int)
    requires
        transport_at(frame) == Some((17u8, at)),
        0 <= at,
        at + 8 <= frame.len() <= at + 65535,
        256 * frame[at + 4] + frame[at + 5] == frame.len() - at,
        h.flags == 1,
        h.csum_start == at,
        h.csum_offset == 6,
        h.gso_type == 0,
    ensures
        normalized(h, frame).packet == frame,
        normalized(h, frame).result == Ok::<Metadata, Seq<char>>(
            Metadata { checksum_verified: true, udp_segment_size: None },
        ),
{
    assert(1u8 & 3 == 1u8 && 1u8 & 1 == 1u8) by (bit_vector);
    assert(datagram_at(frame, at));
    law_offloaded_packets_are_accepted(h, frame, at);
}

/// Datagrams whose lengths are right are accepted under the header that describes them.
#[verifier::rlimit(40)]
#[verifier::spinoff_prover]
proof fn lemma_datagrams_accepted(h: VirtioHeader, frame: Seq<u8>, at: int)
    requires
        frame.len() > 0,
        frame[0] / 16 == 4 || frame[0] / 16 == 6,
        transport_at(frame) == Some((17u8, at)),
        with_lengths(frame) == Ok::<Seq<u8>, Seq<char>>(frame),
        0 <= at,
        at + 8 <= frame.len() <= at + 65535,
        256 * frame[at + 4] + frame[at + 5] == frame.len() - at,
        h.flags == 1,
        h.csum_start == at,
        h.csum_offset == 6,
        h.gso_type == 5,
        h.gso_size > 0,
    ensures
        normalized(h, frame).packet == frame,
        normalized(h, frame).result == Ok::<Metadata, Seq<char>>(
            Metadata { checksum_verified: true, udp_segment_size: Some(h.gso_size) },
        ),
{
    assert(1u8 & 3 == 1u8 && 1u8 & 1 == 1u8) by (bit_vector);
    assert(datagram_at(frame, at));
    law_aggregates_are_accepted(h, frame, at);
    let found = normalized(h, frame).packet;
    assert(found[at + 4] == frame[at + 4] && found[at + 5] == frame[at + 5]);
    assert(found =~= frame);
}

/// A segment whose lengths are right is accepted under the header that describes it.
proof fn lemma_segment_accepted(h: VirtioHeader, frame: Seq<u8>, at: int)
    requires
        frame.len() > 0,
        frame[0] / 16 == 4 || frame[0] / 16 == 6,
        transport_at(frame) == Some((6u8, at)),
        with_lengths(frame) == Ok::<Seq<u8>, Seq<char>>(frame),
        0 <= at,
        at + 20 <= frame.len(),
        5 <= frame[at + 12] / 16,
        at + 4 * (frame[at + 12] / 16) <= frame.len(),
        h.flags == 1,
        h.csum_start == at,
        h.csum_offset == 16,
        h.gso_size > 0,
        h.gso_type == if frame[0] / 16 == 6 {
            4u8
        } else {
            1u8
        },
    ensures
        normalized(h, frame).packet == frame,
        normalized(h, frame).result == Ok::<Metadata, Seq<char>>(
            Metadata { checksum_verified: true, udp_segment_size: None },
        ),
{
    assert(1u8 & 3 == 1u8) by (bit_vector);
    law_aggregates_are_accepted(h, frame, at);
}

/// The fields of the header for datagrams.
proof fn lemma_datagram_fields(v6: bool, parts: int, size: u16)
    ensures
        ({
            let h = udp_header_fields(v6, parts, size);
            let at: u16 = if v6 {
                40
            } else {
                20
            };
            h.csum_start == at && h.hdr_len == at + 8 && h.csum_offset == 6 && h.flags == 1 && (
            parts > 1 ==> h.gso_type == 5 && h.gso_size == size) && (parts <= 1 ==> h.gso_type == 0
                && h.gso_size == 0)
        }),
{
}

/// A completed datagram, in place.
proof fn lemma_completes_datagram(header: Seq<u8>, at: int, payload: Seq<u8>)
    requires
        0 <= at,
        header.len() == at + 8,
    ensures
        completes(header + payload, at, 6, true) == completed_datagram(header, at, payload),
{
    let frame = header + payload;
    assert(frame.skip(at) =~= header.skip(at) + payload);
    assert(completes(frame, at, 6, true) =~= completed_datagram(header, at, payload));
}

/// The fields of the header for a segment.
proof fn lemma_segment_fields(packet: Seq<u8>, at: int, size: u16)
    requires
        size > 0,
        0 <= at,
        at + 20 <= packet.len() <= 60000,
        packet[0] / 16 == 6 && at == 40 || packet[0] == 0x45 && at == 20,
        5 <= packet[at + 12] / 16,
        at + 4 * (packet[at + 12] / 16) <= packet.len(),
    ensures
        gso_header(packet, size) == Ok::<VirtioHeader, Seq<char>>(
            VirtioHeader {
                flags: 1,
                gso_type: if packet[0] / 16 == 6 {
                    4
                } else {
                    1
                },
                hdr_len: (at + 4 * (packet[at + 12] / 16)) as u16,
                gso_size: size,
                csum_start: at as u16,
                csum_offset: 16,
            },
        ),
{
    assert(packet.skip(at)[12] == packet[at + 12]);
}

/// What follows the headers plays no part in the header for a segment.
proof fn lemma_segment_again(packet: Seq<u8>, frame: Seq<u8>, at: int, size: u16)
    requires
        size > 0,
        0 <= at,
        at + 20 <= packet.len() <= frame.len(),
        packet[0] / 16 == 6 && at == 40 || packet[0] == 0x45 && at == 20,
        5 <= packet[at + 12] / 16,
        at + 4 * (packet[at + 12] / 16) <= packet.len(),
        frame[0] == packet[0],
        frame[at + 12] == packet[at + 12],
    ensures
        gso_header(frame, size) == gso_header(packet, size),
{
    assert(packet.skip(at)[12] == packet[at + 12]);
    assert(frame.skip(at)[12] == packet[at + 12]);
}

/// A completed segment, in place.
proof fn lemma_completes_segment(packet: Seq<u8>, at: int, payload: Seq<u8>)
    requires
        0 <= at,
        packet.len() >= at + 20,
    ensures
        completes(packet + payload, at, 16, false) == completed(packet, at, payload),
{
    let frame = packet + payload;
    assert(frame.skip(at) =~= packet.skip(at) + payload);
    assert(completes(frame, at, 16, false) =~= completed(packet, at, payload));
}

/// The header for datagrams that the device completes or cuts fits the IP and UDP header
/// that goes with them: it covers both to the byte, and places the checksum in the UDP
/// header. A receiver of the aggregate under this header finds a UDP aggregate of that
/// size in it, and nothing to mend.
pub proof fn law_datagrams_are_described_as_they_are(
    header: Seq<u8>,
    source: SocketAddress,
    destination: SocketAddress,
    payload: Seq<u8>,
    parts: int,
    size: u16,
)
    requires
        encodable(source, destination, payload.len() as int),
        header.len() == ip_header_len(source) + 8,
        is_ip_header(
            header.take(ip_header_len(source)),
            udp_ip(source, destination, 8 + payload.len() as int),
        ),
        header.skip(ip_header_len(source)) == be_bytes(source.port as int) + be_bytes(
            destination.port as int,
        ) + be_bytes(8 + payload.len() as int) + be_bytes(
            fold(pseudo_sum(source.ip, destination.ip, UDP as int, 8 + payload.len() as int)),
        ),
        parts > 1 ==> size > 0,
    ensures
        ({
            let h = udp_header_fields(header[0] / 16 == 6, parts, size);
            let frame = header + payload;
            &&& h.hdr_len == header.len()
            &&& source.ip is V4 ==> h.csum_start == 20 && h.hdr_len == 28
            &&& source.ip is V6 ==> h.csum_start == 40 && h.hdr_len == 48
            &&& h.csum_offset == 6
            &&& h.flags == 1
            &&& parts > 1 ==> h.gso_type == 5 && h.gso_size == size
            &&& parts <= 1 ==> h.gso_type == 0 && h.gso_size == 0
            &&& transport_at(frame) == Some((17u8, h.csum_start as int))
            &&& normalized(h, frame).packet == frame
            &&& normalized(h, frame).result == Ok::<Metadata, Seq<char>>(
                Metadata {
                    checksum_verified: true,
                    udp_segment_size: if parts > 1 {
                        Some(size)
                    } else {
                        None
                    },
                },
            )
            &&& is_whole_frame(
                completes(frame, h.csum_start as int, h.csum_offset as int, true),
                source,
                destination,
                udp_bytes(source, destination, payload),
            )
        }),
{
    let at = ip_header_len(source);
    let ip = udp_ip(source, destination, 8 + payload.len() as int);
    let h = udp_header_fields(header[0] / 16 == 6, parts, size);
    let frame = header + payload;
    assert(frame.take(at) =~= header.take(at));
    lemma_written_packet(frame, ip);
    assert(frame[0] == header[0]);
    lemma_datagram_fields(header[0] / 16 == 6, parts, size);
    let udp = header.skip(at);
    let len = be_bytes(8 + payload.len() as int);
    assert(udp[4] == len[0] && udp[5] == len[1]);
    assert(frame[at + 4] == udp[4] && frame[at + 5] == udp[5]);
    assert(h.csum_start == at);
    if parts > 1 {
        lemma_datagrams_accepted(h, frame, at);
    } else {
        lemma_datagram_accepted(h, frame, at);
    }
    law_device_completes_a_datagram(header, source, destination, payload);
    lemma_completes_datagram(header, at, payload);
}

/// The length of a TCP header stands in its thirteenth byte.
proof fn lemma_length_byte(packet: Seq<u8>, at: int, len: int)
    requires
        0 <= at,
        20 <= len <= 60,
        len % 4 == 0,
        packet.len() == at + len,
        with_word(packet.skip(at), 16, 0).take(len)[12] == len * 4,
    ensures
        packet[at + 12] == len * 4,
        len == 4 * (packet[at + 12] / 16),
        5 <= packet[at + 12] / 16,
{
    let blank = with_word(packet.skip(at), 16, 0);
    assert(blank.take(len)[12] == blank[12]);
    assert(packet[at + 12] == packet.skip(at)[12]);
}

/// Where the headers of a written segment stand.
proof fn lemma_headers_stand(packet: Seq<u8>, ip: IpHeader, f: TcpFields)
    requires
        is_tcp_packet(packet, ip, f, Seq::empty(), true),
        ip.wf(),
        f.options.spec_header_len() <= 60,
    ensures
        ({
            let at = ip.spec_header_len();
            let len = f.options.spec_header_len();
            &&& packet.len() == at + len
            &&& 20 <= len <= 60
            &&& packet[at + 12] == len * 4
            &&& len == 4 * (packet[at + 12] / 16)
            &&& 5 <= packet[at + 12] / 16
            &&& ip.source is V4 ==> packet[0] == 0x45 && at == 20
            &&& ip.source is V6 ==> packet[0] == 0x60 && at == 40
            &&& is_ip_header(packet.take(at), ip)
        }),
{
    law_options_fill_whole_words(f.options);
    lemma_length_byte(packet, ip.spec_header_len(), f.options.spec_header_len());
    assert(packet[0] == packet.take(ip.spec_header_len())[0]);
}

/// The header for a segment that the device cuts fits the IP and TCP header that goes
/// with it: it covers both to the byte, names the family, and places the checksum in the
/// TCP header. A receiver of the aggregate under this header finds a TCP aggregate in it,
/// and nothing to mend; and the device makes a valid segment of it.
pub proof fn law_segments_are_described_as_they_are(
    packet: Seq<u8>,
    ip: IpHeader,
    f: TcpFields,
    payload: Seq<u8>,
    size: u16,
)
    requires
        is_tcp_packet(packet, ip, f, Seq::empty(), true),
        ip.wf(),
        ip.protocol == TCP,
        ip.payload_len == f.options.spec_header_len() + payload.len(),
        ip.payload_len <= ip.max_payload(),
        f.options.spec_header_len() <= 60,
        size > 0,
    ensures
        gso_header(packet, size) matches Ok(h) && {
            let frame = packet + payload;
            &&& h.hdr_len == packet.len()
            &&& ip.source is V4 ==> h.csum_start == 20 && h.gso_type == 1
            &&& ip.source is V6 ==> h.csum_start == 40 && h.gso_type == 4
            &&& h.csum_offset == 16
            &&& h.flags == 1
            &&& h.gso_size == size
            &&& gso_header(frame, size) == Ok::<VirtioHeader, Seq<char>>(h)
            &&& transport_at(frame) == Some((6u8, h.csum_start as int))
            &&& normalized(h, frame).packet == frame
            &&& normalized(h, frame).result == Ok::<Metadata, Seq<char>>(
                Metadata { checksum_verified: true, udp_segment_size: None },
            )
            &&& is_tcp_packet(
                completes(frame, h.csum_start as int, h.csum_offset as int, false),
                ip,
                f,
                payload,
                false,
            )
        },
{
    let at = ip.spec_header_len();
    let frame = packet + payload;
    lemma_headers_stand(packet, ip, f);
    assert(frame.take(at) =~= packet.take(at));
    assert(frame[0] == packet[0] && frame[at + 12] == packet[at + 12]);
    lemma_written_packet(frame, ip);
    lemma_segment_fields(packet, at, size);
    lemma_segment_again(packet, frame, at, size);
    let h = gso_header(packet, size)->Ok_0;
    lemma_segment_accepted(h, frame, at);
    assert(is_tcp_packet(completes(frame, at, 16, false), ip, f, payload, false)) by {
        law_device_completes_the_checksum(packet, ip, f, payload);
        lemma_completes_segment(packet, at, payload);
    }
}

/// The header of a TCP aggregate is refused only where the packet is of no version, its
/// headers are not all there, or its segments would carry nothing.
pub proof fn law_sound_aggregates_are_described(packet: Seq<u8>, size: u16)
    requires
        packet.len() > 0,
        size > 0,
        ({
            ||| packet[0] / 16 == 6 && packet.len() >= 60 && 5 <= packet[52] / 16 && 40 + 4 * (
            packet[52] / 16) <= packet.len()
            ||| packet[0] / 16 == 4 && ({
                let start = 4 * (packet[0] % 16);
                &&& start + 20 <= packet.len()
                &&& 5 <= packet[start + 12] / 16
                &&& start + 4 * (packet[start + 12] / 16) <= packet.len()
            })
        }),
    ensures
        gso_header(packet, size) is Ok,
{
    let start = if packet[0] / 16 == 6 {
        40
    } else {
        4 * (packet[0] % 16)
    };
    assert(packet.skip(start)[12] == packet[start + 12]);
}

/// Equal parts stand one behind another.
proof fn lemma_equal_parts(parts: Seq<Bytes>, size: int, i: int)
    requires
        0 <= size,
        forall|k: int| 0 <= k < parts.len() ==> contents(#[trigger] parts[k]).len() == size,
        0 <= i < parts.len(),
    ensures
        joined(parts).len() == parts.len() * size,
        0 <= i * size,
        i * size + size <= parts.len() * size,
        joined(parts).subrange(i * size, i * size + size) == contents(parts[i]),
    decreases parts.len(),
{
    let rest = parts.drop_last();
    let n = rest.len() as int;
    assert(parts.len() * size == n * size + size) by (nonlinear_arith)
        requires
            parts.len() == n + 1,
    ;
    assert(i * size >= 0) by (nonlinear_arith)
        requires
            i >= 0,
            size >= 0,
    ;
    assert(contents(parts[n]).len() == size);
    if n > 0 {
        lemma_equal_parts(rest, size, if i < n {
            i
        } else {
            0
        });
    } else {
        assert(n * size == 0);
    }
    if i < n {
        assert(rest[i] == parts[i]);
        assert(joined(parts).subrange(i * size, i * size + size) =~= joined(rest).subrange(
            i * size,
            i * size + size,
        ));
    } else {
        assert(joined(parts).subrange(i * size, i * size + size) =~= contents(parts[i]));
    }
}

/// What a receiver that trusts the checksum finds in a datagram with a partial one.
proof fn lemma_partial_datagram(
    header: Seq<u8>,
    source: SocketAddress,
    destination: SocketAddress,
    payload: Seq<u8>,
)
    requires
        encodable(source, destination, payload.len() as int),
        destination.port != 0,
        header.len() == 8,
        header == be_bytes(source.port as int) + be_bytes(destination.port as int) + be_bytes(
            8 + payload.len() as int,
        ) + be_bytes(
            fold(pseudo_sum(source.ip, destination.ip, UDP as int, 8 + payload.len() as int)),
        ),
    ensures
        udp_datagram(
            udp_ip(source, destination, 8 + payload.len() as int),
            header + payload,
            true,
        ) == Some((Flow { source, destination }, payload)),
{
    let s = header + payload;
    let sum = pseudo_sum(source.ip, destination.ip, UDP as int, 8 + payload.len() as int);
    lemma_address_sum(source.ip);
    lemma_address_sum(destination.ip);
    assert(0 < fold(sum) <= 65535);
    assert forall|i: int| 0 <= i < 8 implies #[trigger] s[i] == header[i] by {}
    assert(be16(s, 0) == source.port);
    assert(be16(s, 2) == destination.port);
    assert(be16(s, 4) == 8 + payload.len());
    assert(be16(s, 6) == fold(sum));
    assert(s.subrange(8, 8 + payload.len() as int) =~= payload);
}

/// A header for datagrams of one length, with its partial checksum.
spec fn heads(
    header: Seq<u8>,
    source: SocketAddress,
    destination: SocketAddress,
    total: int,
) -> bool {
    let at = ip_header_len(source);
    &&& header.len() == at + 8
    &&& is_ip_header(header.take(at), udp_ip(source, destination, total))
    &&& header.skip(at) == be_bytes(source.port as int) + be_bytes(destination.port as int)
        + be_bytes(total) + be_bytes(
        fold(pseudo_sum(source.ip, destination.ip, UDP as int, total)),
    )
}

/// A shared header says the length of what it heads.
proof fn lemma_shared_header(
    header: Seq<u8>,
    source: SocketAddress,
    destination: SocketAddress,
    payload: Seq<u8>,
)
    requires
        is_shared_header(header, source, destination),
        header.len() >= 28,
        be16(header, header.len() - 4) == 8 + payload.len(),
    ensures
        heads(header, source, destination, 8 + payload.len() as int),
        payload.len() <= max_datagram(source),
{
    let at = ip_header_len(source);
    let total = choose|total: int|
        #![trigger udp_ip(source, destination, total)]
        8 <= total <= max_datagram(source) + 8 && header.len() == at + 8 && is_ip_header(
            header.take(at),
            udp_ip(source, destination, total),
        ) && header.skip(at) == be_bytes(source.port as int) + be_bytes(destination.port as int)
            + be_bytes(total) + be_bytes(
            fold(pseudo_sum(source.ip, destination.ip, UDP as int, total)),
        );
    let udp = header.skip(at);
    assert(header[at + 4] == udp[4] && header[at + 5] == udp[5]);
    assert(udp[4] == be_bytes(total)[0] && udp[5] == be_bytes(total)[1]);
    assert(be16(header, header.len() - 4) == total);
}

/// What a receiver that trusts the checksum finds in a frame with a partial one.
proof fn lemma_partial_frame(
    header: Seq<u8>,
    source: SocketAddress,
    destination: SocketAddress,
    payload: Seq<u8>,
)
    requires
        encodable(source, destination, payload.len() as int),
        destination.port != 0,
        spec_unicast(source.ip),
        spec_unicast(destination.ip),
        heads(header, source, destination, 8 + payload.len() as int),
    ensures
        spec_parse(header + payload) matches Some(p) && p.fragment is None && p.ip.protocol == 17
            && udp_datagram(p.ip, p.payload, true) == Some(
            (Flow { source, destination }, payload),
        ),
{
    let at = ip_header_len(source);
    let frame = header + payload;
    let udp = header.skip(at);
    let ip = udp_ip(source, destination, 8 + payload.len() as int);
    assert(frame.take(at) =~= header.take(at));
    assert(frame.skip(at) =~= udp + payload);
    law_whole_packet_parses(frame, ip, udp + payload);
    lemma_partial_datagram(udp, source, destination, payload);
}

/// An aggregate of datagrams is read back, by a receiver that the device hands it whole,
/// as the datagrams that it was made of: the header that goes with it is accepted, the
/// packet is one of UDP between its ends, and cut at the size that the header gives, its
/// payload is the parts, each with its own bytes.
pub proof fn law_aggregates_read_back(
    action: Action,
    source: SocketAddress,
    destination: SocketAddress,
    i: int,
)
    requires
        action is Udp,
        bounded(action),
        is_shared_header(contents(action->Udp_header), source, destination),
        source.ip is V4 == destination.ip is V4,
        source.port != 0,
        destination.port != 0,
        spec_unicast(source.ip),
        spec_unicast(destination.ip),
        0 <= i < action->parts@.len(),
    ensures
        ({
            let header = contents(action->Udp_header);
            let parts = action->parts@;
            let size = action->size;
            let payload = joined(parts);
            let frame = header + payload;
            let h = udp_header_fields(header[0] / 16 == 6, parts.len() as int, size);
            &&& normalized(h, frame).packet == frame
            &&& normalized(h, frame).result == Ok::<Metadata, Seq<char>>(
                Metadata {
                    checksum_verified: true,
                    udp_segment_size: if parts.len() > 1 {
                        Some(size)
                    } else {
                        None
                    },
                },
            )
            &&& spec_parse(frame) matches Some(p) && p.fragment is None && p.ip.protocol == 17
                && udp_datagram(p.ip, p.payload, true) == Some(
                (Flow { source, destination }, payload),
            )
            &&& payload.len() == parts.len() * size
            &&& payload.subrange(i * size, i * size + size) == contents(parts[i])
        }),
{
    let header = contents(action->Udp_header);
    let parts = action->parts@;
    let size = action->size;
    let payload = joined(parts);
    lemma_equal_parts(parts, size as int, i);
    lemma_shared_header(header, source, destination, payload);
    law_datagrams_are_described_as_they_are(
        header,
        source,
        destination,
        payload,
        parts.len() as int,
        size,
    );
    lemma_partial_frame(header, source, destination, payload);
}

} // verus!
