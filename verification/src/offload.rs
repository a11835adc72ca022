//! Normalizes the virtio frames of Linux before the common IP validation.
use crate::checksum;
use crate::checksum::{
    balanced, be16, complement, lemma_complement_balances, lemma_word_sum_bounds, word_sum,
};
use crate::packet::{law_offload_finds_the_transport, offload_transport, transport_at};
use crate::segment::lemma_word_sum_with;
use crate::wire::{
    complete_tcp_header, ipv4_header_len, parse_udp, tcp_complete, tcp_header_len, udp_fields, TCP,
    UDP,
};
use vstd::prelude::*;
use vstd::slice::slice_subrange;

verus! {

/// The largest packet that a device hands over.
pub const MAX_IP_PACKET: usize = 65575;

/// The length of a virtio header.
pub const VIRTIO_LEN: usize = 10;

/// The kinds of segmentation that a virtio header names.
pub const GSO_NONE: u8 = 0;

pub const GSO_TCPV4: u8 = 1;

pub const GSO_TCPV6: u8 = 4;

pub const GSO_UDP_L4: u8 = 5;

/// The device has yet to complete the checksum.
pub const NEEDS_CHECKSUM: u8 = 1;

/// Data that breaks a rule, and which.
pub struct Invalid {
    pub message: String,
}

/// An error that names the rule which the data breaks.
pub fn invalid(message: &str) -> (r: Invalid)
    ensures
        r.message@ == message@,
{
    Invalid { message: message.to_owned() }
}

/// What a virtio header says of the frame that follows it.
#[derive(Clone, Copy, Debug, PartialEq, Eq, Structural)]
pub struct VirtioHeader {
    pub flags: u8,
    pub gso_type: u8,
    pub hdr_len: u16,
    pub gso_size: u16,
    pub csum_start: u16,
    pub csum_offset: u16,
}

/// The 16-bit word at a position in one of the two byte orders.
pub open spec fn word_at(s: Seq<u8>, i: int, big: bool) -> u16 {
    (if big {
        s[i] * 256 + s[i + 1]
    } else {
        s[i + 1] * 256 + s[i]
    }) as u16
}

/// The header that ten bytes spell in one of the two byte orders.
pub open spec fn virtio_reading(s: Seq<u8>, big: bool) -> VirtioHeader {
    VirtioHeader {
        flags: s[0],
        gso_type: s[1],
        hdr_len: word_at(s, 2, big),
        gso_size: word_at(s, 4, big),
        csum_start: word_at(s, 6, big),
        csum_offset: word_at(s, 8, big),
    }
}

/// `tun_rs::VirtioNetHdr::decode`: the header that the first ten bytes spell in
/// the byte order of the machine.
#[verifier::external_body]
pub(crate) fn decode_virtio(frame: &[u8]) -> (r: Option<VirtioHeader>)
    ensures
        r is Some == (frame@.len() >= VIRTIO_LEN),
        r matches Some(h) ==> h == virtio_reading(frame@, false) || h == virtio_reading(
            frame@,
            true,
        ),
{
    let header = tun_rs::VirtioNetHdr::decode(frame).ok()?;
    Some(VirtioHeader {
        flags: header.flags,
        gso_type: header.gso_type,
        hdr_len: header.hdr_len,
        gso_size: header.gso_size,
        csum_start: header.csum_start,
        csum_offset: header.csum_offset,
    })
}

/// `tun_rs::VirtioNetHdr::encode` into ten bytes, in the byte order of the
/// machine.
#[verifier::external_body]
pub(crate) fn encode_virtio(header: VirtioHeader) -> (r: Vec<u8>)
    ensures
        r@.len() == VIRTIO_LEN,
        header == virtio_reading(r@, false) || header == virtio_reading(r@, true),
{
    let mut bytes = vec![0u8; tun_rs::VIRTIO_NET_HDR_LEN];
    let outside = tun_rs::VirtioNetHdr {
        flags: header.flags,
        gso_type: header.gso_type,
        hdr_len: header.hdr_len,
        gso_size: header.gso_size,
        csum_start: header.csum_start,
        csum_offset: header.csum_offset,
    };
    let _ = outside.encode(&mut bytes);
    bytes
}

/// `s` with a 16-bit word in network order at a position.
pub open spec fn with_word(s: Seq<u8>, at: int, value: int) -> Seq<u8> {
    s.update(at, (value / 256) as u8).update(at + 1, (value % 256) as u8)
}

/// An IPv4 packet whose lengths agree with each other and with the bytes.
pub open spec fn ipv4_sized(s: Seq<u8>) -> bool {
    s.len() >= 20 && 20 <= ipv4_header_len(s) <= be16(s, 2) <= s.len()
}

/// An aggregate with the length that it has, and the header checksum that goes
/// with it, or the rule that it breaks.
pub open spec fn with_lengths(packet: Seq<u8>) -> Result<Seq<u8>, Seq<char>> {
    if packet[0] / 16 == 6 {
        if packet.len() < 40 || packet.len() - 40 > 65535 {
            Err("invalid GSO IPv6 size"@)
        } else {
            Ok(with_word(packet, 4, packet.len() - 40))
        }
    } else if packet.len() > 65535 {
        Err("invalid GSO IPv4 size"@)
    } else if !ipv4_sized(packet) {
        Err("short GSO IPv4 header"@)
    } else {
        let sized = with_word(with_word(packet, 2, packet.len() as int), 10, 0);
        Ok(with_word(sized, 10, complement(word_sum(sized.take(ipv4_header_len(packet))))))
    }
}

/// What a frame is found to be: whether its checksum needs no test, and the size
/// of the datagrams that it aggregates.
pub struct Metadata {
    pub checksum_verified: bool,
    pub udp_segment_size: Option<u16>,
}

/// A packet after normalization, and what was found or which rule it breaks.
pub struct Normalized {
    pub packet: Seq<u8>,
    pub result: Result<Metadata, Seq<char>>,
}

pub open spec fn refused(packet: Seq<u8>, message: Seq<char>) -> Normalized {
    Normalized { packet, result: Err(message) }
}

/// The transport of a packet whose lengths are right, held against the header.
pub open spec fn with_transport(header: VirtioHeader, packet: Seq<u8>) -> Normalized {
    let gso = header.gso_type != GSO_NONE;
    match transport_at(packet) {
        None => refused(packet, "invalid offload IP header or fragmented frame"@),
        Some((protocol, start)) => if protocol != TCP && protocol != UDP {
            refused(packet, "unsupported offload transport"@)
        } else if (gso || header.flags % 2 == 1) && (header.csum_start != start
            || header.csum_offset != (if protocol == TCP {
            16u16
        } else {
            6u16
        })) {
            refused(packet, "offload checksum metadata does not match transport"@)
        } else if protocol == TCP {
            if !tcp_complete(packet.skip(start)) {
                refused(packet, "short offload TCP header"@)
            } else if gso && header.gso_type != (if packet[0] / 16 == 6 {
                GSO_TCPV6
            } else {
                GSO_TCPV4
            }) {
                refused(packet, "GSO type does not match TCP"@)
            } else {
                Normalized {
                    packet,
                    result: Ok(Metadata { checksum_verified: true, udp_segment_size: None }),
                }
            }
        } else if packet.len() - start > 65535 {
            refused(packet, "invalid offload UDP size"@)
        } else if udp_fields(packet.skip(start)) is None {
            refused(packet, "short offload UDP header"@)
        } else if gso && header.gso_type != GSO_UDP_L4 {
            refused(packet, "GSO type does not match UDP"@)
        } else if gso {
            Normalized {
                packet: with_word(packet, start + 4, packet.len() - start),
                result: Ok(
                    Metadata {
                        checksum_verified: true,
                        udp_segment_size: Some(header.gso_size),
                    },
                ),
            }
        } else {
            Normalized {
                packet,
                result: Ok(Metadata { checksum_verified: true, udp_segment_size: None }),
            }
        },
    }
}

/// What normalization makes of a packet under a virtio header. A frame that asks
/// for nothing is left alone; an aggregate gets the lengths that it has. Linux has
/// validated or scheduled the transport checksum, so it is not computed here.
pub open spec fn normalized(header: VirtioHeader, packet: Seq<u8>) -> Normalized {
    let gso = header.gso_type != GSO_NONE;
    let verified = header.flags % 4 != 0;
    if !gso && !verified {
        Normalized {
            packet,
            result: Ok(Metadata { checksum_verified: false, udp_segment_size: None }),
        }
    } else if gso && (header.gso_size == 0 || !verified) {
        refused(packet, "invalid GSO checksum or segment size"@)
    } else if packet.len() == 0 || (packet[0] / 16 != 4 && packet[0] / 16 != 6) {
        refused(packet, "invalid offload IP version"@)
    } else if gso {
        match with_lengths(packet) {
            Err(message) => refused(packet, message),
            Ok(sized) => with_transport(header, sized),
        }
    } else {
        with_transport(header, packet)
    }
}

/// An exec result and a mathematical one say the same.
pub open spec fn agrees(r: Result<Metadata, Invalid>, s: Result<Metadata, Seq<char>>) -> bool {
    match (r, s) {
        (Ok(a), Ok(b)) => a == b,
        (Err(a), Err(b)) => a.message@ == b,
        _ => false,
    }
}

fn set_word(packet: &mut Vec<u8>, at: usize, value: u16)
    requires
        at + 1 < old(packet)@.len(),
    ensures
        final(packet)@ == with_word(old(packet)@, at as int, value as int),
{
    assert(packet.len() == packet@.len());
    packet[at] = (value / 256) as u8;
    packet[at + 1] = (value % 256) as u8;
}

/// Gives an aggregate the length that it has.
fn set_lengths(packet: &mut Vec<u8>) -> (r: Result<(), Invalid>)
    requires
        old(packet)@.len() > 0,
        old(packet)@[0] / 16 == 4 || old(packet)@[0] / 16 == 6,
    ensures
        match (r, with_lengths(old(packet)@)) {
            (Ok(_), Ok(sized)) => final(packet)@ == sized,
            (Err(e), Err(message)) => e.message@ == message && final(packet)@ == old(packet)@,
            _ => false,
        },
{
    let len: usize = packet.len();
    if packet[0] / 16 == 6 {
        if len < 40 || len - 40 > 65535 {
            return Err(invalid("invalid GSO IPv6 size"));
        }
        set_word(packet, 4, (len - 40) as u16);
        return Ok(());
    }
    if len > 65535 {
        return Err(invalid("invalid GSO IPv4 size"));
    }
    if len < 20 {
        return Err(invalid("short GSO IPv4 header"));
    }
    let header_len: usize = (packet[0] % 16) as usize * 4;
    let total: usize = packet[2] as usize * 256 + packet[3] as usize;
    if header_len < 20 || header_len > total || total > len {
        return Err(invalid("short GSO IPv4 header"));
    }
    set_word(packet, 2, len as u16);
    set_word(packet, 10, 0);
    let header = slice_subrange(packet.as_slice(), 0, header_len);
    assert(header@ =~= packet@.take(header_len as int));
    let sum: u16 = 0xffff - checksum::data(header);
    set_word(packet, 10, sum);
    Ok(())
}

/// Holds the transport of a packet whose lengths are right against the header.
fn check_transport(header: &VirtioHeader, packet: &mut Vec<u8>) -> (r: Result<Metadata, Invalid>)
    requires
        old(packet)@.len() > 0,
    ensures
        final(packet)@ == with_transport(*header, old(packet)@).packet,
        agrees(r, with_transport(*header, old(packet)@).result),
{
    let gso: bool = header.gso_type != GSO_NONE;
    let (protocol, start) = match offload_transport(packet.as_slice()) {
        Some(found) => found,
        None => {
            return Err(invalid("invalid offload IP header or fragmented frame"));
        },
    };
    if protocol != TCP && protocol != UDP {
        return Err(invalid("unsupported offload transport"));
    }
    let expected: u16 = if protocol == TCP {
        16
    } else {
        6
    };
    if (gso || header.flags % 2 == 1) && (header.csum_start as usize != start || header.csum_offset
        != expected) {
        return Err(invalid("offload checksum metadata does not match transport"));
    }
    let len: usize = packet.len();
    let transport = slice_subrange(packet.as_slice(), start, len);
    assert(transport@ =~= packet@.skip(start as int));
    if protocol == TCP {
        if !complete_tcp_header(transport) {
            return Err(invalid("short offload TCP header"));
        }
        let kind: u8 = if packet[0] / 16 == 6 {
            GSO_TCPV6
        } else {
            GSO_TCPV4
        };
        if gso && header.gso_type != kind {
            return Err(invalid("GSO type does not match TCP"));
        }
        return Ok(Metadata { checksum_verified: true, udp_segment_size: None });
    }
    if len - start > 65535 {
        return Err(invalid("invalid offload UDP size"));
    }
    if parse_udp(transport).is_none() {
        return Err(invalid("short offload UDP header"));
    }
    if !gso {
        return Ok(Metadata { checksum_verified: true, udp_segment_size: None });
    }
    if header.gso_type != GSO_UDP_L4 {
        return Err(invalid("GSO type does not match UDP"));
    }
    set_word(packet, start + 4, (len - start) as u16);
    Ok(Metadata { checksum_verified: true, udp_segment_size: Some(header.gso_size) })
}

/// Normalizes a packet under its virtio header.
pub fn normalize_packet(header: &VirtioHeader, packet: &mut Vec<u8>) -> (r: Result<
    Metadata,
    Invalid,
>)
    ensures
        final(packet)@ == normalized(*header, old(packet)@).packet,
        agrees(r, normalized(*header, old(packet)@).result),
{
    let gso: bool = header.gso_type != GSO_NONE;
    let verified: bool = header.flags % 4 != 0;
    if !gso && !verified {
        return Ok(Metadata { checksum_verified: false, udp_segment_size: None });
    }
    if gso && (header.gso_size == 0 || !verified) {
        return Err(invalid("invalid GSO checksum or segment size"));
    }
    if packet.len() == 0 || (packet[0] / 16 != 4 && packet[0] / 16 != 6) {
        return Err(invalid("invalid offload IP version"));
    }
    if gso {
        match set_lengths(packet) {
            Ok(_) => {},
            Err(error) => {
                return Err(error);
            },
        }
    }
    check_transport(header, packet)
}

/// Normalizes a frame in place: a virtio header, then the packet that it speaks
/// of.
pub fn normalize(frame: &mut Vec<u8>) -> (r: Result<Metadata, Invalid>)
    ensures
        old(frame)@.len() < VIRTIO_LEN ==> final(frame)@ == old(frame)@ && (r matches Err(e)
            && e.message@ == "too short"@),
        old(frame)@.len() >= VIRTIO_LEN ==> exists|big: bool|
            {
                let found = #[trigger] normalized(
                    virtio_reading(old(frame)@, big),
                    old(frame)@.skip(VIRTIO_LEN as int),
                );
                final(frame)@ == old(frame)@.take(VIRTIO_LEN as int) + found.packet && agrees(
                    r,
                    found.result,
                )
            },
{
    let header = match decode_virtio(frame.as_slice()) {
        Some(header) => header,
        None => {
            return Err(invalid("too short"));
        },
    };
    let mut packet = frame.split_off(VIRTIO_LEN);
    let ghost before = packet@;
    let r = normalize_packet(&header, &mut packet);
    frame.append(&mut packet);
    proof {
        let big = header != virtio_reading(old(frame)@, false);
        assert(header == virtio_reading(old(frame)@, big));
        assert(before =~= old(frame)@.skip(VIRTIO_LEN as int));
        assert(frame@ =~= old(frame)@.take(VIRTIO_LEN as int) + normalized(header, before).packet);
    }
    r
}

/// The virtio header of a TCP aggregate, or the rule that the aggregate breaks.
pub open spec fn gso_header(packet: Seq<u8>, segment_size: u16) -> Result<
    VirtioHeader,
    Seq<char>,
> {
    if packet.len() == 0 || (packet[0] / 16 != 4 && packet[0] / 16 != 6) {
        Err("invalid GSO IP version"@)
    } else {
        let v6 = packet[0] / 16 == 6;
        let start = if v6 {
            40
        } else {
            ipv4_header_len(packet)
        };
        if packet.len() < start {
            Err("short GSO IP header"@)
        } else if !tcp_complete(packet.skip(start)) {
            Err("invalid GSO TCP header"@)
        } else if segment_size == 0 {
            Err("zero GSO segment size"@)
        } else {
            Ok(
                VirtioHeader {
                    flags: NEEDS_CHECKSUM,
                    gso_type: if v6 {
                        GSO_TCPV6
                    } else {
                        GSO_TCPV4
                    },
                    hdr_len: (start + tcp_header_len(packet.skip(start))) as u16,
                    gso_size: segment_size,
                    csum_start: start as u16,
                    csum_offset: 16,
                },
            )
        }
    }
}

/// The virtio header of a TCP aggregate whose segments carry `segment_size`
/// bytes.
pub fn tcp_gso_fields(packet: &[u8], segment_size: u16) -> (r: Result<VirtioHeader, Invalid>)
    ensures
        match (r, gso_header(packet@, segment_size)) {
            (Ok(a), Ok(b)) => a == b,
            (Err(a), Err(b)) => a.message@ == b,
            _ => false,
        },
{
    if packet.len() == 0 || (packet[0] / 16 != 4 && packet[0] / 16 != 6) {
        return Err(invalid("invalid GSO IP version"));
    }
    let v6: bool = packet[0] / 16 == 6;
    let start: usize = if v6 {
        40
    } else {
        (packet[0] % 16) as usize * 4
    };
    if packet.len() < start {
        return Err(invalid("short GSO IP header"));
    }
    let transport = slice_subrange(packet, start, packet.len());
    assert(transport@ =~= packet@.skip(start as int));
    if !complete_tcp_header(transport) {
        return Err(invalid("invalid GSO TCP header"));
    }
    if segment_size == 0 {
        return Err(invalid("zero GSO segment size"));
    }
    let tcp_len: usize = (transport[12] / 16) as usize * 4;
    Ok(
        VirtioHeader {
            flags: NEEDS_CHECKSUM,
            gso_type: if v6 {
                GSO_TCPV6
            } else {
                GSO_TCPV4
            },
            hdr_len: (start + tcp_len) as u16,
            gso_size: segment_size,
            csum_start: start as u16,
            csum_offset: 16,
        },
    )
}

/// The bytes of the virtio header of a TCP aggregate.
pub fn tcp_gso_header(packet: &[u8], segment_size: u16) -> (r: Result<Vec<u8>, Invalid>)
    ensures
        match (r, gso_header(packet@, segment_size)) {
            (Ok(bytes), Ok(header)) => bytes@.len() == VIRTIO_LEN && (header == virtio_reading(
                bytes@,
                false,
            ) || header == virtio_reading(bytes@, true)),
            (Err(a), Err(b)) => a.message@ == b,
            _ => false,
        },
{
    match tcp_gso_fields(packet, segment_size) {
        Ok(header) => Ok(encode_virtio(header)),
        Err(error) => Err(error),
    }
}

/// The virtio header of a UDP aggregate, or of a single datagram whose checksum
/// the device completes.
pub open spec fn udp_header_fields(v6: bool, parts: int, size: u16) -> VirtioHeader {
    let start: u16 = if v6 {
        40
    } else {
        20
    };
    VirtioHeader {
        flags: NEEDS_CHECKSUM,
        gso_type: if parts > 1 {
            GSO_UDP_L4
        } else {
            GSO_NONE
        },
        hdr_len: (start + 8) as u16,
        gso_size: if parts > 1 {
            size
        } else {
            0
        },
        csum_start: start,
        csum_offset: 6,
    }
}

/// The bytes of the virtio header of `parts` datagrams of `size` bytes that share
/// an IP and UDP header.
pub fn udp_gso_header(header: &[u8], parts: usize, size: u16) -> (r: Result<Vec<u8>, Invalid>)
    ensures
        r is Ok == (header@.len() > 0 && (header@[0] / 16 == 4 || header@[0] / 16 == 6)),
        r matches Err(e) ==> e.message@ == "invalid UDP IP version"@,
        r matches Ok(bytes) ==> {
            let fields = udp_header_fields(header@[0] / 16 == 6, parts as int, size);
            bytes@.len() == VIRTIO_LEN && (fields == virtio_reading(bytes@, false) || fields
                == virtio_reading(bytes@, true))
        },
{
    if header.len() == 0 || (header[0] / 16 != 4 && header[0] / 16 != 6) {
        return Err(invalid("invalid UDP IP version"));
    }
    let start: u16 = if header[0] / 16 == 6 {
        40
    } else {
        20
    };
    Ok(
        encode_virtio(
            VirtioHeader {
                flags: NEEDS_CHECKSUM,
                gso_type: if parts > 1 {
                    GSO_UDP_L4
                } else {
                    GSO_NONE
                },
                hdr_len: start + 8,
                gso_size: if parts > 1 {
                    size
                } else {
                    0
                },
                csum_start: start,
                csum_offset: 6,
            },
        ),
    )
}

/// Only a frame whose header asks for it is taken at the device's word.
pub proof fn law_checksums_are_tested_unless_offloaded(header: VirtioHeader, packet: Seq<u8>)
    ensures
        normalized(header, packet).result matches Ok(found) ==> {
            &&& found.checksum_verified == (header.flags % 4 != 0)
            &&& found.udp_segment_size is Some ==> header.gso_type == GSO_UDP_L4
            &&& header.gso_type == GSO_NONE ==> normalized(header, packet).packet == packet
        },
{
}

/// Where the device completes the checksum, its place in the packet is the one
/// that the transport found in the packet has.
pub proof fn law_offload_metadata_matches_the_transport(header: VirtioHeader, packet: Seq<u8>)
    requires
        normalized(header, packet).result is Ok,
        header.gso_type != GSO_NONE || header.flags % 2 == 1,
    ensures
        ({
            let sized = if header.gso_type != GSO_NONE {
                with_lengths(packet)->Ok_0
            } else {
                packet
            };
            &&& transport_at(sized) matches Some((protocol, start)) && header.csum_start == start
                && header.csum_offset == if protocol == TCP {
                16u16
            } else {
                6u16
            }
        }),
{
}

/// A packet is taken at the device's word only where the device gave it: a frame whose
/// header asks for nothing passes as it is, and its checksum is still to be tested.
pub proof fn law_plain_frames_pass_untested(header: VirtioHeader, packet: Seq<u8>)
    requires
        header.gso_type == 0,
        header.flags & 3 == 0,
    ensures
        normalized(header, packet).packet == packet,
        normalized(header, packet).result == Ok::<Metadata, Seq<char>>(
            Metadata { checksum_verified: false, udp_segment_size: None },
        ),
{
    let flags = header.flags;
    assert((flags & 3 == 0) == (flags % 4 == 0)) by (bit_vector);
}

/// A TCP header starts at a position of a packet, and lies within it.
pub open spec fn segment_at(packet: Seq<u8>, start: int) -> bool {
    &&& start + 20 <= packet.len()
    &&& 5 <= packet[start + 12] / 16
    &&& start + 4 * (packet[start + 12] / 16) <= packet.len()
}

/// A UDP header starts at a position of a packet, and the datagram that it claims lies
/// within what its length field can say and within the packet.
pub open spec fn datagram_at(packet: Seq<u8>, start: int) -> bool {
    &&& start + 8 <= packet.len() <= start + 65535
    &&& 8 <= 256 * packet[start + 4] + packet[start + 5] <= packet.len() - start
}

/// A single segment or datagram whose checksum the device has checked, or has yet to
/// complete at the right place, is accepted as it is and its checksum is not tested.
pub proof fn law_offloaded_packets_are_accepted(header: VirtioHeader, packet: Seq<u8>, start: int)
    requires
        header.gso_type == 0,
        header.flags & 3 != 0,
        ({
            ||| transport_at(packet) == Some((6u8, start)) && segment_at(packet, start) && (
            header.flags & 1 == 1 ==> header.csum_offset == 16)
            ||| transport_at(packet) == Some((17u8, start)) && datagram_at(packet, start) && (
            header.flags & 1 == 1 ==> header.csum_offset == 6)
        }),
        header.flags & 1 == 1 ==> header.csum_start == start,
    ensures
        normalized(header, packet).packet == packet,
        normalized(header, packet).result == Ok::<Metadata, Seq<char>>(
            Metadata { checksum_verified: true, udp_segment_size: None },
        ),
{
    let flags = header.flags;
    assert((flags & 3 == 0) == (flags % 4 == 0)) by (bit_vector);
    assert((flags & 1 == 1) == (flags % 2 == 1)) by (bit_vector);
    lemma_transport_lies_within(packet);
    let rest = packet.skip(start);
    assert(rest.len() == packet.len() - start);
    assert(rest[12] == packet[start + 12] || rest.len() < 13);
    assert(rest[4] == packet[start + 4] || rest.len() < 5);
    assert(rest[5] == packet[start + 5] || rest.len() < 6);
}

/// An aggregate of either family is accepted, once its lengths are those that it has: a
/// TCP one under the kind of its family, a UDP one under the one kind that there is, with
/// the size of its datagrams and its own length in the UDP header.
pub proof fn law_aggregates_are_accepted(header: VirtioHeader, packet: Seq<u8>, start: int)
    requires
        header.gso_type != 0,
        header.gso_size != 0,
        header.flags & 3 != 0,
        header.csum_start == start,
        packet.len() > 0,
        packet[0] / 16 == 4 || packet[0] / 16 == 6,
        with_lengths(packet) is Ok,
    ensures
        ({
            let sized = with_lengths(packet)->Ok_0;
            let found = normalized(header, packet);
            &&& transport_at(sized) == Some((6u8, start)) && segment_at(sized, start)
                && header.csum_offset == 16 && header.gso_type == (if packet[0] / 16 == 6 {
                4u8
            } else {
                1u8
            }) ==> found.packet == sized && found.result == Ok::<Metadata, Seq<char>>(
                Metadata { checksum_verified: true, udp_segment_size: None },
            )
            &&& transport_at(sized) == Some((17u8, start)) && datagram_at(sized, start)
                && header.csum_offset == 6 && header.gso_type == 5 ==> {
                &&& found.packet.len() == packet.len()
                &&& 256 * found.packet[start + 4] + found.packet[start + 5] == packet.len() - start
                &&& forall|i: int|
                    0 <= i < packet.len() && i != start + 4 && i != start + 5
                        ==> #[trigger] found.packet[i] == sized[i]
                &&& found.result == Ok::<Metadata, Seq<char>>(
                    Metadata {
                        checksum_verified: true,
                        udp_segment_size: Some(header.gso_size),
                    },
                )
            }
        }),
{
    let flags = header.flags;
    assert((flags & 3 == 0) == (flags % 4 == 0)) by (bit_vector);
    let sized = with_lengths(packet)->Ok_0;
    law_lengths_become_right(packet);
    lemma_transport_lies_within(sized);
    if transport_at(sized) is Some && (transport_at(sized)->0).1 == start {
        let rest = sized.skip(start);
        assert(rest.len() == sized.len() - start);
        assert(rest[12] == sized[start + 12] || rest.len() < 13);
        assert(rest[4] == sized[start + 4] || rest.len() < 5);
        assert(rest[5] == sized[start + 5] || rest.len() < 6);
    }
}

/// Of what comes under a header that speaks of an aggregate, only such a one is accepted:
/// a TCP one of the family that the header names, or a UDP one, whose checksum the device
/// vouches for and whose parts have a size.
pub proof fn law_only_aggregates_pass_as_such(header: VirtioHeader, packet: Seq<u8>)
    requires
        header.gso_type != 0,
    ensures
        normalized(header, packet).result matches Ok(found) ==> {
            &&& header.gso_size > 0
            &&& header.flags & 3 != 0
            &&& header.gso_type == 1 || header.gso_type == 4 || header.gso_type == 5
            &&& header.gso_type == 1 ==> packet[0] / 16 == 4 && header.csum_offset == 16
                && found.udp_segment_size is None
            &&& header.gso_type == 4 ==> packet[0] / 16 == 6 && header.csum_offset == 16
                && found.udp_segment_size is None
            &&& header.gso_type == 5 ==> header.csum_offset == 6 && found.udp_segment_size == Some(
                header.gso_size,
            )
            &&& found.checksum_verified
            &&& normalized(header, packet).packet.len() == packet.len()
        },
{
    let flags = header.flags;
    assert((flags & 3 == 0) == (flags % 4 == 0)) by (bit_vector);
    if packet.len() > 0 && (packet[0] / 16 == 4 || packet[0] / 16 == 6) {
        law_lengths_become_right(packet);
    }
}

/// An aggregate gets the length that it has, whatever its header said before, and a
/// header checksum that goes with it; nothing else of it changes. It is refused only
/// where no length field can say its length or its header is not all there.
pub proof fn law_lengths_become_right(packet: Seq<u8>)
    requires
        packet.len() > 0,
        packet[0] / 16 == 4 || packet[0] / 16 == 6,
    ensures
        packet[0] / 16 == 6 ==> (with_lengths(packet) is Ok <==> 40 <= packet.len() <= 65575),
        packet[0] / 16 == 4 ==> (with_lengths(packet) is Ok <==> 20 <= packet.len() <= 65535 && 5
            <= packet[0] % 16 && 4 * (packet[0] % 16) <= 256 * packet[2] + packet[3]
            <= packet.len()),
        with_lengths(packet) matches Ok(sized) ==> {
            &&& sized.len() == packet.len()
            &&& packet[0] / 16 == 6 ==> {
                &&& 256 * sized[4] + sized[5] == packet.len() - 40
                &&& forall|i: int|
                    0 <= i < packet.len() && i != 4 && i != 5 ==> #[trigger] sized[i] == packet[i]
            }
            &&& packet[0] / 16 == 4 ==> {
                &&& 256 * sized[2] + sized[3] == packet.len()
                &&& balanced(word_sum(sized.take(4 * (packet[0] % 16))))
                &&& forall|i: int|
                    0 <= i < packet.len() && i != 2 && i != 3 && i != 10 && i != 11
                        ==> #[trigger] sized[i] == packet[i]
            }
        },
{
    if packet[0] / 16 == 4 && with_lengths(packet) is Ok {
        let len = ipv4_header_len(packet);
        let blank = with_word(with_word(packet, 2, packet.len() as int), 10, 0);
        let sum = complement(word_sum(blank.take(len)));
        let sized = with_word(blank, 10, sum);
        lemma_word_sum_bounds(blank.take(len));
        lemma_complement_balances(word_sum(blank.take(len)));
        assert(sized.take(len) =~= with_word(blank.take(len), 10, sum));
        lemma_word_sum_with(blank.take(len), 10, sum);
        assert(be16(blank.take(len), 10) == 0);
    }
}

/// The transport that is found lies within the packet.
proof fn lemma_transport_lies_within(packet: Seq<u8>)
    ensures
        transport_at(packet) matches Some((_, start)) ==> 20 <= start <= packet.len(),
{
    law_offload_finds_the_transport(packet);
}

/// What is accepted under a header that speaks of a checksum is a whole segment or
/// datagram: the transport that is found is TCP or UDP, its header lies within the packet,
/// and where the device has yet to complete the checksum, the header places it where the
/// transport has it.
pub proof fn law_only_sound_offloads_are_accepted(header: VirtioHeader, packet: Seq<u8>)
    requires
        header.flags & 3 != 0,
        header.gso_type == 0,
        normalized(header, packet).result is Ok,
    ensures
        transport_at(packet) matches Some((protocol, start)) && {
            &&& protocol == 6 || protocol == 17
            &&& protocol == 6 ==> segment_at(packet, start)
            &&& protocol == 17 ==> datagram_at(packet, start)
            &&& header.flags & 1 == 1 ==> header.csum_start == start && header.csum_offset == (
            if protocol == 6 {
                16int
            } else {
                6int
            })
        },
{
    let flags = header.flags;
    assert((flags & 3 == 0) == (flags % 4 == 0)) by (bit_vector);
    assert((flags & 1 == 1) == (flags % 2 == 1)) by (bit_vector);
    lemma_transport_lies_within(packet);
    if transport_at(packet) is Some {
        let start = (transport_at(packet)->0).1;
        let rest = packet.skip(start);
        assert(rest.len() == packet.len() - start);
        assert(rest[12] == packet[start + 12] || rest.len() < 13);
        assert(rest[4] == packet[start + 4] || rest.len() < 5);
        assert(rest[5] == packet[start + 5] || rest.len() < 6);
    }
}

/// The header of a TCP aggregate speaks of headers that are all in the packet, and of
/// segments that carry something.
pub proof fn law_described_aggregates_are_sound(packet: Seq<u8>, size: u16)
    requires
        gso_header(packet, size) is Ok,
    ensures
        ({
            let h = gso_header(packet, size)->Ok_0;
            let start = h.csum_start as int;
            &&& size > 0
            &&& packet[0] / 16 == 4 || packet[0] / 16 == 6
            &&& start == (if packet[0] / 16 == 6 {
                40int
            } else {
                4 * (packet[0] % 16)
            })
            &&& start + 20 <= packet.len()
            &&& h.hdr_len == start + 4 * (packet[start + 12] / 16)
            &&& start + 20 <= h.hdr_len <= packet.len()
        }),
{
    let start = if packet[0] / 16 == 6 {
        40
    } else {
        ipv4_header_len(packet)
    };
    assert(packet.skip(start)[12] == packet[start + 12]);
}

/// An aggregate is accepted only where it is whole: with the lengths that it has, it leads
/// to the transport that the header names, at the place that the header gives, and that
/// transport's header lies within it.
pub proof fn law_only_whole_aggregates_are_accepted(header: VirtioHeader, packet: Seq<u8>)
    requires
        header.gso_type != 0,
        normalized(header, packet).result is Ok,
    ensures
        with_lengths(packet) matches Ok(sized) && transport_at(sized) matches Some((protocol, start))
            && {
            &&& header.csum_start == start
            &&& header.gso_type == 5 ==> protocol == 17 && datagram_at(sized, start)
            &&& header.gso_type != 5 ==> protocol == 6 && segment_at(sized, start)
        },
{
    let sized = with_lengths(packet)->Ok_0;
    lemma_transport_lies_within(sized);
    if transport_at(sized) is Some {
        let start = (transport_at(sized)->0).1;
        let rest = sized.skip(start);
        assert(rest.len() == sized.len() - start);
        assert(rest[12] == sized[start + 12] || rest.len() < 13);
        assert(rest[4] == sized[start + 4] || rest.len() < 5);
        assert(rest[5] == sized[start + 5] || rest.len() < 6);
    }
}

} // verus!
