//! UDP and TCP packets from their encoders through the decoder.
use kotoconn::decoder::{Decoder, ASSEMBLY_BYTES, REASSEMBLY_LIFETIME};
use kotoconn::endpoint::{plan, Action};
use kotoconn::packet::{parse, unicast, Flow, Packet, Payload, RouteKey};
use kotoconn::reassembly::Limits;
use kotoconn::segment::{encode_segment, Rejector};
use kotoconn::transmit::Transmit;
use kotoconn::udp::{reply_flow, Encoder};
use kotoconn::worker::{frame, routed, Framed};
use kotoconn::wire::{
    IpAddress, IpHeader, SocketAddress, TcpControl, TcpFields, TcpOptions, TCP, UDP,
};
use smoltcp::phy::ChecksumCapabilities;
use smoltcp::wire::{
    Ipv4Packet, Ipv6FragmentHeader, Ipv6FragmentRepr, Ipv6Packet, Ipv6Repr, TcpPacket, TcpRepr,
    TcpSeqNumber, UdpPacket,
};
use std::collections::VecDeque;

const ALLOWANCE: usize = 4 * 128 * 1024;

fn flow(ipv6: bool) -> Flow {
    if ipv6 {
        Flow {
            source: SocketAddress::new(IpAddress::V6((0xfd00u128 << 112) | 2), 12345),
            destination: SocketAddress::new(IpAddress::V6((0x2001_0db8u128 << 96) | 1), 443),
        }
    } else {
        Flow {
            source: SocketAddress::new(IpAddress::V4(0xc000_0202), 12345),
            destination: SocketAddress::new(IpAddress::V4(0xc633_6401), 443),
        }
    }
}

fn outside(address: IpAddress) -> smoltcp::wire::IpAddress {
    match address {
        IpAddress::V4(a) => smoltcp::wire::IpAddress::Ipv4(a.into()),
        IpAddress::V6(a) => smoltcp::wire::IpAddress::Ipv6(a.into()),
    }
}

fn segment(
    flow: Flow,
    seq: i32,
    ack: Option<i32>,
    control: smoltcp::wire::TcpControl,
    payload: &[u8],
) -> Vec<u8> {
    let repr = TcpRepr {
        src_port: flow.source.port,
        dst_port: flow.destination.port,
        control,
        seq_number: TcpSeqNumber(seq),
        ack_number: ack.map(TcpSeqNumber),
        window_len: 65535,
        window_scale: None,
        max_seg_size: Some(1220),
        sack_permitted: false,
        sack_ranges: [None; 3],
        timestamp: None,
        payload,
    };
    let mut bytes = vec![0; repr.buffer_len()];
    repr.emit(
        &mut TcpPacket::new_unchecked(&mut bytes[..]),
        &outside(flow.source.ip),
        &outside(flow.destination.ip),
        &ChecksumCapabilities::default(),
    );
    Packet {
        ip: IpHeader {
            source: flow.source.ip,
            destination: flow.destination.ip,
            protocol: TCP,
            payload_len: bytes.len(),
            hop_limit: 64,
        },
        payload: Payload::Owned(bytes),
    }
    .encode()
}

fn decoded(bytes: &[u8]) -> Packet<'static> {
    Decoder::new().decode(&mut Limits::new(ALLOWANCE), bytes, 0).unwrap().into_owned()
}

#[test]
fn udp_roundtrips_empty_and_fragmented_datagrams_in_both_families() {
    for mtu in [1280, 1500, 9000, 65535] {
        for ipv6 in [false, true] {
            let flow = flow(ipv6);
            let boundary = mtu - if ipv6 { 48 } else { 28 };
            let maximum = if ipv6 { 65527 } else { 65507 };
            for size in [
                0,
                1,
                boundary - 1,
                boundary,
                (boundary + 1).min(maximum),
                4096,
                maximum,
            ] {
                let payload: Vec<u8> = (0..size).map(|i| (i % 251) as u8).collect();
                let mut encoder = Encoder::new(mtu);
                let mut packets =
                    encoder.encode(flow.source, flow.destination, &payload).unwrap();
                assert!(!packets.is_empty());
                assert!(packets.iter().all(|p| p.len() <= mtu));
                // The last fragment may arrive first.
                packets.reverse();
                let mut limits = Limits::new(ALLOWANCE);
                let mut decoder = Decoder::new();
                let mut completed = Vec::new();
                for packet in packets {
                    if let Some(packet) = decoder.decode(&mut limits, &packet, 0) {
                        completed.push(packet.into_owned());
                    }
                }
                assert_eq!(completed.len(), 1, "IPv6={ipv6}, payload={size}");
                let (received_flow, received) = completed[0].udp().unwrap();
                assert_eq!(received_flow, flow);
                assert_eq!(received, payload);
                assert_eq!(limits.used, 0);
            }
        }
    }
}

#[test]
fn checksums_lengths_flags_and_unspecified_addresses_are_validated() {
    for ipv6 in [false, true] {
        let flow = flow(ipv6);
        let original = segment(flow, 100, None, smoltcp::wire::TcpControl::Syn, &[]);
        for cut in 0..original.len() {
            let mut limits = Limits::new(ALLOWANCE);
            let packet = Decoder::new()
                .decode(&mut limits, &original[..cut], 0)
                .map(Packet::into_owned);
            assert!(packet.is_none_or(|p| p.tcp().is_none()));
        }
        let mut corrupt = original.clone();
        *corrupt.last_mut().unwrap() ^= 1;
        assert!(decoded(&corrupt).tcp().is_none());
        let header = if ipv6 { 40 } else { 20 };
        let mut corrupt = original.clone();
        corrupt[header + 13] |= 1; // SYN + FIN is invalid, even with a valid checksum.
        let mut tcp = TcpPacket::new_unchecked(&mut corrupt[header..]);
        tcp.fill_checksum(&outside(flow.source.ip), &outside(flow.destination.ip));
        assert!(decoded(&corrupt).tcp().is_none());
        let mut bad_flow = flow;
        bad_flow.source.ip = if ipv6 { IpAddress::V6(0) } else { IpAddress::V4(0) };
        assert!(Decoder::new()
            .decode(
                &mut Limits::new(ALLOWANCE),
                &segment(bad_flow, 1, None, smoltcp::wire::TcpControl::Syn, &[]),
                0
            )
            .is_none());
        if !ipv6 {
            let mut corrupt = original;
            corrupt[8] ^= 1;
            assert!(Decoder::new()
                .decode(&mut Limits::new(ALLOWANCE), &corrupt, 0)
                .is_none());
        }
    }
}

#[test]
fn ipv6_overlaps_poison_the_datagram_but_atomic_fragments_are_independent() {
    let flow = flow(true);
    let packets = Encoder::new(1280)
        .encode(flow.source, flow.destination, &vec![7; 2500])
        .unwrap();
    let mut limits = Limits::new(ALLOWANCE);
    let mut decoder = Decoder::new();
    let now = 1000;
    assert!(decoder.decode(&mut limits, &packets[0], now).is_none());
    assert!(decoder.decode(&mut limits, &packets[0], now).is_none());
    for packet in &packets[1..] {
        assert!(decoder.decode(&mut limits, packet, now).is_none());
    }
    // Reuse the ID with an atomic fragment. RFC 6946 forbids sharing reassembly state.
    let small = Encoder::new(1280)
        .encode(flow.source, flow.destination, b"atomic")
        .unwrap()
        .remove(0)
        .to_vec();
    let mut atomic = vec![0; small.len() + 8];
    atomic[..40].copy_from_slice(&small[..40]);
    let mut ip = Ipv6Packet::new_unchecked(&mut atomic);
    ip.set_next_header(smoltcp::wire::IpProtocol::Ipv6Frag);
    ip.set_payload_len((small.len() - 40 + 8) as u16);
    atomic[40] = UDP;
    atomic[44..48].copy_from_slice(&packets[0][44..48]);
    atomic[48..].copy_from_slice(&small[40..]);
    assert_eq!(
        decoder.decode(&mut limits, &atomic, now).unwrap().udp().unwrap().1,
        b"atomic"
    );
    // Expiry is measured from the first fragment, not refreshed by invalid traffic.
    decoder.expire(&mut limits, now + 60_000);
    let mut completed = None;
    for packet in &packets {
        completed = decoder
            .decode(&mut limits, packet, now + 60_000)
            .map(Packet::into_owned)
            .or(completed);
    }
    assert_eq!(completed.unwrap().udp().unwrap().1, vec![7; 2500]);
}

#[test]
fn closed_tcp_ports_use_rfc_reset_sequence_numbers() {
    for ipv6 in [false, true] {
        let mut rejector = Rejector::new();
        let syn = decoded(&segment(flow(ipv6), 100, None, smoltcp::wire::TcpControl::Syn, &[]));
        assert!(rejector.cost(&syn).is_some());
        let Some(Transmit::Packet(bytes)) = rejector.reject(&syn, true) else {
            panic!("packet expected")
        };
        let reply = decoded(&bytes);
        let tcp = reply.tcp().unwrap();
        assert_eq!(tcp.fields.control, TcpControl::Rst);
        assert_eq!(tcp.fields.ack_number, Some(101));
        let ack = decoded(&segment(
            flow(ipv6),
            100,
            Some(999),
            smoltcp::wire::TcpControl::None,
            &[],
        ));
        let Some(Transmit::Packet(bytes)) = rejector.reject(&ack, true) else {
            panic!("packet expected")
        };
        let reply = decoded(&bytes);
        let tcp = reply.tcp().unwrap();
        assert_eq!(tcp.fields.seq_number, 999);
        assert_eq!(tcp.fields.ack_number, None);
        let rst = decoded(&segment(flow(ipv6), 100, None, smoltcp::wire::TcpControl::Rst, &[]));
        assert!(rejector.cost(&rst).is_none());
        assert!(rejector.reject(&rst, true).is_none());
        assert!(rejector.reject(&ack, false).is_none());
    }
}

#[test]
fn udp_zero_checksum_is_only_valid_for_ipv4_and_source_port_may_be_omitted() {
    for ipv6 in [false, true] {
        let flow = flow(ipv6);
        let mut bytes = Encoder::new(1280)
            .encode(flow.source, flow.destination, b"test")
            .unwrap()
            .remove(0)
            .to_vec();
        let offset = if ipv6 { 40 } else { 20 };
        let mut udp = UdpPacket::new_unchecked(&mut bytes[offset..]);
        udp.set_src_port(0);
        udp.fill_checksum(&outside(flow.source.ip), &outside(flow.destination.ip));
        assert_eq!(decoded(&bytes).udp().unwrap().0.source.port, 0);
        UdpPacket::new_unchecked(&mut bytes[offset..]).set_checksum(0);
        assert_eq!(decoded(&bytes).udp().is_some(), !ipv6);
    }
}

fn ipv6_fragment(bytes: &[u8], protocol: u8, offset: usize, more: bool, id: u32) -> Vec<u8> {
    let flow = flow(true);
    let (IpAddress::V6(source), IpAddress::V6(destination)) = (flow.source.ip, flow.destination.ip)
    else {
        unreachable!()
    };
    let repr = Ipv6Repr {
        src_addr: source.into(),
        dst_addr: destination.into(),
        next_header: smoltcp::wire::IpProtocol::Ipv6Frag,
        payload_len: bytes.len() + 8,
        hop_limit: 64,
    };
    let mut packet = vec![0; 48 + bytes.len()];
    repr.emit(&mut Ipv6Packet::new_unchecked(&mut packet));
    packet[40] = protocol;
    Ipv6FragmentRepr {
        frag_offset: (offset / 8) as u16,
        more_frags: more,
        ident: id,
    }
    .emit(&mut Ipv6FragmentHeader::new_unchecked(&mut packet[42..48]));
    packet[48..].copy_from_slice(bytes);
    packet
}

#[test]
fn ipv6_first_fragment_requires_the_complete_tcp_header_and_reserved_bits_are_ignored() {
    let syn = segment(flow(true), 100, None, smoltcp::wire::TcpControl::Syn, &[]);
    let tcp = &syn[40..];
    let mut limits = Limits::new(ALLOWANCE);
    let mut decoder = Decoder::new();
    assert!(decoder
        .decode(&mut limits, &ipv6_fragment(&tcp[..8], TCP, 0, true, 1), 0)
        .is_none());
    assert!(decoder
        .decode(&mut limits, &ipv6_fragment(&tcp[8..], TCP, 8, false, 1), 0)
        .is_none());
    let mut atomic = ipv6_fragment(tcp, TCP, 0, false, 2);
    atomic[41] = 0xff;
    atomic[43] |= 6;
    assert!(decoder.decode(&mut limits, &atomic, 0).unwrap().tcp().is_some());
}

#[test]
fn ipv6_reassembly_capacity_expires_and_malformed_input_does_not_panic() {
    let mut limits = Limits::new(ALLOWANCE);
    let mut decoder = Decoder::new();
    let first = ipv6_fragment(&[0; 8], UDP, 0, true, 64);
    let last = ipv6_fragment(&[0; 8], UDP, 8, false, 64);
    assert!(decoder.decode(&mut limits, &first, 0).is_none());
    decoder.expire(&mut limits, 60_000);
    assert!(decoder.decode(&mut limits, &last, 60_000).is_none());
    assert!(decoder.decode(&mut limits, &first, 60_000).is_some());
    // Exercise all lengths and version nibbles with a reproducible corpus.
    for length in 0..512 {
        for version in 0..16u8 {
            let mut bytes: Vec<u8> = (0..length).map(|i| (i * 31 + length) as u8).collect();
            if let Some(first) = bytes.first_mut() {
                *first = version << 4 | (*first & 15);
            }
            if let Some(packet) = decoder.decode(&mut limits, &bytes, 60_000) {
                match packet.ip.protocol {
                    TCP => {
                        let _ = packet.tcp();
                    }
                    UDP => {
                        let _ = packet.udp();
                    }
                    _ => {}
                }
            }
        }
    }
}

#[test]
fn ipv4_reassembly_accounts_for_options_in_the_original_size_limit() {
    let flow = flow(false);
    for size in [4096, 65507] {
        let mut packets = Encoder::new(1280)
            .encode(flow.source, flow.destination, &vec![7; size])
            .unwrap()
            .into_iter()
            .map(|packet| packet.to_vec())
            .collect::<Vec<_>>();
        packets[0].splice(20..20, [1, 1, 1, 1]);
        let len = packets[0].len();
        let mut first = Ipv4Packet::new_unchecked(&mut packets[0]);
        first.set_header_len(24);
        first.set_total_len(len as u16);
        first.fill_checksum();
        for reverse in [false, true] {
            let mut limits = Limits::new(ALLOWANCE);
            let mut decoder = Decoder::new();
            let mut complete = None;
            if reverse {
                packets.reverse();
            }
            for packet in &packets {
                complete = decoder
                    .decode(&mut limits, packet, 0)
                    .map(Packet::into_owned)
                    .or(complete);
            }
            assert_eq!(complete.is_some(), size == 4096);
            if let Some(packet) = complete {
                assert_eq!(packet.udp().unwrap().1, vec![7; size]);
            }
        }
    }
}

#[test]
fn concurrent_reassembly_keeps_datagrams_separate_across_workers() {
    for ipv6 in [false, true] {
        let mut limits = Limits::new(1024 * 1024);
        let mut decoders = [Decoder::new(), Decoder::new()];
        let f = flow(ipv6);
        let mut encoder = Encoder::new(1280);
        let mut datagrams = Vec::new();
        for index in 0..8 {
            let frames = encoder
                .encode(f.source, f.destination, &vec![index as u8; 2500])
                .unwrap();
            assert!(decoders[index % 2].decode(&mut limits, &frames[0], 0).is_none());
            datagrams.push(frames);
        }
        for (index, frames) in datagrams.iter().enumerate() {
            let mut completed = None;
            for frame in &frames[1..] {
                completed = decoders[index % 2]
                    .decode(&mut limits, frame, 0)
                    .map(Packet::into_owned)
                    .or(completed);
            }
            assert_eq!(completed.unwrap().udp().unwrap().1, vec![index as u8; 2500]);
        }
    }
}

#[test]
fn reassembly_fits_its_allowance_without_geometric_buffer_growth() {
    for ipv6 in [false, true] {
        let mut limits = Limits::new(5000);
        let mut decoders = [Decoder::new(), Decoder::new()];
        let f = flow(ipv6);
        let mut encoder = Encoder::new(1280);

        // Payload and metadata fit, but geometric growth would not. Completing on
        // one worker must release the shared allowance for another.
        for decoder in &mut decoders {
            let frames = encoder.encode(f.source, f.destination, &[7; 4000]).unwrap();
            let mut completed = None;
            for frame in &frames {
                completed = decoder
                    .decode(&mut limits, frame, 0)
                    .map(Packet::into_owned)
                    .or(completed);
            }
            assert_eq!(completed.unwrap().udp().unwrap().1, [7; 4000]);
        }
        assert_eq!(limits.take_completed(), 2 * (ASSEMBLY_BYTES + 4008));
    }
}

#[test]
fn idle_reassembly_releases_shared_storage_at_its_deadline() {
    for ipv6 in [false, true] {
        let mut limits = Limits::new(8192);
        let mut idle = Decoder::new();
        let mut active = Decoder::new();
        let f = flow(ipv6);
        let now = 5000;
        let mut encoder = Encoder::new(1280);
        for _ in 0..64 {
            let frames = encoder.encode(f.source, f.destination, &[7; 2500]).unwrap();
            assert!(idle.decode(&mut limits, &frames[0], now).is_none());
        }
        let frames = encoder.encode(f.source, f.destination, &[9; 2500]).unwrap();
        for frame in &frames {
            assert!(active.decode(&mut limits, frame, now).is_none());
        }
        let deadline = idle.deadline().unwrap();
        idle.expire(&mut limits, deadline);
        active.expire(&mut limits, deadline);
        assert_eq!(idle.deadline(), None);
        let mut completed = None;
        for frame in &frames {
            completed = active
                .decode(&mut limits, frame, deadline)
                .map(Packet::into_owned)
                .or(completed);
        }
        assert_eq!(completed.unwrap().udp().unwrap().1, [9; 2500]);
    }
}

#[test]
fn mixed_corrupt_and_valid_datagrams_preserve_decoder_state_across_reuse() {
    for mtu in [1280, 1500, 9000, 65535] {
        for ipv6 in [false, true] {
            let (source, destination) = if ipv6 {
                (
                    SocketAddress::new(IpAddress::V6((0xfd00u128 << 112) | 2), 1234),
                    SocketAddress::new(IpAddress::V6((0x2001_0db8u128 << 96) | 1), 9001),
                )
            } else {
                (
                    SocketAddress::new(IpAddress::V4(0xc000_0202), 1234),
                    SocketAddress::new(IpAddress::V4(0xc612_0001), 9001),
                )
            };
            let mut encoder = Encoder::new(mtu);
            let mut limits = Limits::new(ALLOWANCE);
            let mut decoder = Decoder::new();
            for sequence in 0..128u64 {
                let payload: Vec<u8> =
                    (0..8193).map(|i| (i as u64 ^ sequence.rotate_left(3)) as u8).collect();
                let valid = encoder.encode(source, destination, &payload).unwrap();
                let mut corrupt = encoder
                    .encode(source, destination, b"INVALID-checksum")
                    .unwrap()[0]
                    .to_vec();
                let start = if ipv6 { 40 } else { 20 };
                let mut udp = UdpPacket::new_checked(&mut corrupt[start..]).unwrap();
                let original = udp.checksum();
                udp.set_checksum(if original == 1 { 2 } else { 1 });
                assert!(decoder.decode(&mut limits, &corrupt, 0).unwrap().udp().is_none());

                // Alternate partial headers with a valid fragmented datagram in reverse order.
                // A persistent decoder must retain the good assembly across rejected input.
                let mut completed = Vec::new();
                for fragment in valid.iter().rev() {
                    assert!(decoder.decode(&mut limits, &fragment[..1], 0).is_none());
                    if let Some(packet) = decoder.decode(&mut limits, fragment, 0) {
                        let (flow, received) = packet.udp().unwrap();
                        assert_eq!(flow.source, source);
                        assert_eq!(flow.destination, destination);
                        completed.push(received.to_vec());
                    }
                }
                assert_eq!(completed, [payload]);
                if !ipv6 {
                    Ipv4Packet::new_unchecked(&mut corrupt).set_checksum(0);
                    assert!(decoder.decode(&mut limits, &corrupt, 0).is_none());
                }
            }
        }
    }
}

#[test]
fn a_written_datagram_has_these_bytes() {
    let source = SocketAddress::new(IpAddress::V4(0xc000_0201), 1000);
    let destination = SocketAddress::new(IpAddress::V4(0xc000_0202), 53);
    let frames = Encoder::new(1500).encode(source, destination, &[1, 2, 3]).unwrap();
    assert_eq!(frames.len(), 1);
    assert_eq!(
        &frames[0][..20],
        &[
            0x45, 0, 0, 31, 0, 0, 0x40, 0, 64, 17, 0xb6, 0xca, 192, 0, 2, 1, 192, 0, 2, 2
        ]
    );
    assert_eq!(&frames[0][20..26], &[0x03, 0xe8, 0, 53, 0, 11]);
    assert_eq!(&frames[0][28..], &[1, 2, 3]);
    // The words of the pseudo-header, the header and the payload sum to all ones.
    let words = [
        0xc000u32, 0x0201, 0xc000, 0x0202, 17, 11, 1000, 53, 11, 0x0102, 0x0300,
    ];
    let mut sum: u32 = words.iter().sum();
    sum = (sum >> 16) + (sum & 0xffff);
    sum = (sum >> 16) + (sum & 0xffff);
    let field = u32::from(frames[0][26]) * 256 + u32::from(frames[0][27]);
    assert_eq!(field, 0xffff - sum);
}

#[test]
fn fragments_carry_one_identification_and_consecutive_offsets() {
    let f = flow(false);
    let frames = Encoder::new(1280)
        .encode_as(f.source, f.destination, &[5; 4000], 0x1_2345)
        .unwrap();
    assert_eq!(frames.len(), 4);
    for (index, frame) in frames.iter().enumerate() {
        let ip = Ipv4Packet::new_checked(&frame[..]).unwrap();
        assert_eq!(ip.ident(), 0x2345);
        assert_eq!(usize::from(ip.frag_offset()), index * 1256);
        assert_eq!(ip.more_frags(), index < 3);
        assert!(!ip.dont_frag());
        assert!(ip.verify_checksum());
    }
    assert_eq!(frames[3].len(), 20 + 4008 - 3 * 1256);
}

#[test]
fn datagrams_without_a_form_on_the_wire_are_refused() {
    let (v4, v6) = (flow(false), flow(true));
    let mut encoder = Encoder::new(1500);
    assert!(encoder.encode(v4.source, v6.destination, b"x").is_none());
    let mut nameless = v4.source;
    nameless.port = 0;
    assert!(encoder.encode(nameless, v4.destination, b"x").is_none());
    assert!(encoder.encode(v4.source, v4.destination, &vec![0; 65508]).is_none());
    assert!(encoder.encode(v6.source, v6.destination, &vec![0; 65528]).is_none());
    assert!(encoder.header(v4.source, v4.destination, 1473, 1473).is_none());
    assert!(encoder.header(v4.source, v4.destination, 1472, 65508).is_none());
    assert!(encoder.header(v4.source, v4.destination, 1472, 65507).is_some());
}

#[test]
fn writers_share_identifications() {
    let f = flow(true);
    let mut first = Encoder::new(1280);
    let mut second = first.clone();
    let id = |frames: &[bytes::Bytes]| {
        let header = &frames[0][44..48];
        u32::from_be_bytes([header[0], header[1], header[2], header[3]])
    };
    let a = id(&first.encode(f.source, f.destination, &[0; 3000]).unwrap());
    let b = id(&second.encode(f.source, f.destination, &[0; 3000]).unwrap());
    let c = id(&first.encode(f.source, f.destination, &[0; 3000]).unwrap());
    assert_eq!(b, a.wrapping_add(1));
    assert_eq!(c, b.wrapping_add(1));
}

#[test]
fn ipv4_fragments_may_overlap_but_not_contradict_the_end() {
    let f = flow(false);
    let frames = Encoder::new(1280)
        .encode_as(f.source, f.destination, &[6; 3000], 9)
        .unwrap();
    let mut limits = Limits::new(ALLOWANCE);
    let mut decoder = Decoder::new();
    assert!(decoder.decode(&mut limits, &frames[0], 0).is_none());
    assert!(decoder.decode(&mut limits, &frames[0], 0).is_none());
    // A second last fragment with another end is left out.
    let mut short = frames[2].to_vec();
    short.truncate(20 + 8);
    let mut ip = Ipv4Packet::new_unchecked(&mut short);
    ip.set_total_len(28);
    ip.fill_checksum();
    assert!(decoder.decode(&mut limits, &frames[2], 0).is_none());
    assert!(decoder.decode(&mut limits, &short, 0).is_none());
    let packet = decoder.decode(&mut limits, &frames[1], 0).unwrap();
    assert_eq!(packet.udp().unwrap().1, [6; 3000]);
}

#[test]
fn a_full_allowance_drops_fragments_but_keeps_its_accounts() {
    let f = flow(false);
    let frames = Encoder::new(1280)
        .encode_as(f.source, f.destination, &[6; 3000], 9)
        .unwrap();
    let mut limits = Limits::new(ASSEMBLY_BYTES + 1256);
    let mut decoder = Decoder::new();
    assert!(decoder.decode(&mut limits, &frames[0], 0).is_none());
    assert_eq!(limits.used, ASSEMBLY_BYTES + 1256);
    assert!(decoder.decode(&mut limits, &frames[1], 0).is_none());
    assert_eq!(limits.used, ASSEMBLY_BYTES + 1256);
    limits.set_target(ALLOWANCE);
    assert!(decoder.decode(&mut limits, &frames[1], 1).is_none());
    assert!(decoder.decode(&mut limits, &frames[2], 2).is_some());
    assert_eq!(limits.used, 0);
}

#[test]
fn too_many_holes_poison_ipv6_and_are_ignored_by_ipv4() {
    for ipv6 in [false, true] {
        let f = flow(ipv6);
        let payload: Vec<u8> = (0..16000).map(|i| (i % 241) as u8).collect();
        let frames = Encoder::new(1280)
            .encode_as(f.source, f.destination, &payload, 3)
            .unwrap();
        let mut limits = Limits::new(ALLOWANCE);
        let mut decoder = Decoder::new();
        let mut completed = 0;
        // Every other fragment first: five runs are one too many.
        let order = (0..frames.len()).step_by(2).chain((1..frames.len()).step_by(2));
        for index in order.chain(0..frames.len()) {
            if let Some(packet) = decoder.decode(&mut limits, &frames[index], 0) {
                assert_eq!(packet.udp().unwrap().1, payload);
                completed += 1;
            }
        }
        assert_eq!(completed, if ipv6 { 0 } else { 1 });
    }
}

#[test]
fn options_and_extensions_are_held_to_their_rules() {
    // An IPv4 header with a source route is refused; padding is not.
    let f = flow(false);
    let plain = Encoder::new(1280).encode(f.source, f.destination, b"x").unwrap()[0].to_vec();
    for (options, accepted) in [
        ([1, 1, 1, 0], true),
        ([131, 3, 0, 0], false),
        ([137, 3, 0, 0], false),
        ([7, 4, 0, 0], true),
        ([7, 5, 0, 0], false),
        ([7, 1, 0, 0], false),
        ([1, 1, 1, 7], false),
    ] {
        let mut packet = plain.clone();
        packet.splice(20..20, options);
        let len = packet.len();
        let mut ip = Ipv4Packet::new_unchecked(&mut packet);
        ip.set_header_len(24);
        ip.set_total_len(len as u16);
        ip.fill_checksum();
        assert_eq!(parse(&packet).is_some(), accepted, "{options:?}");
    }

    // IPv6 options: the top bits of an unknown type say whether it may be skipped.
    let f = flow(true);
    let plain = Encoder::new(1280).encode(f.source, f.destination, b"x").unwrap()[0].to_vec();
    for (first, options, accepted) in [
        (0u8, [1, 4, 0, 0, 0, 0], true),
        (60, [1, 4, 0, 0, 0, 0], true),
        (60, [0, 0, 0, 0, 0, 0], true),
        (60, [5, 2, 0, 0, 1, 0], true),
        (60, [5, 3, 0, 0, 0, 0], false),
        (60, [0x1e, 4, 0, 0, 0, 0], true),
        (60, [0x5e, 4, 0, 0, 0, 0], false),
        (60, [0x63, 4, 0, 0, 0, 0], false),
        (60, [1, 5, 0, 0, 0, 0], false),
        (43, [1, 4, 0, 0, 0, 0], false),
    ] {
        let mut packet = plain.clone();
        let mut header = vec![UDP, 0];
        header.extend_from_slice(&options);
        packet.splice(40..40, header);
        let len = packet.len();
        let mut ip = Ipv6Packet::new_unchecked(&mut packet);
        ip.set_next_header(first.into());
        ip.set_payload_len((len - 40) as u16);
        assert_eq!(parse(&packet).is_some(), accepted, "{first} {options:?}");
    }

    // Hop-by-hop options come first, and a chain is finite.
    for (count, accepted) in [(1, true), (7, true), (8, false)] {
        let mut packet = plain.clone();
        for index in 0..count {
            let next = if index == 0 { UDP } else { 60 };
            packet.splice(40..40, [next, 0, 1, 4, 0, 0, 0, 0]);
        }
        let len = packet.len();
        let mut ip = Ipv6Packet::new_unchecked(&mut packet);
        ip.set_next_header(60.into());
        ip.set_payload_len((len - 40) as u16);
        assert_eq!(parse(&packet).is_some(), accepted, "{count}");
    }
}

#[test]
fn addresses_that_name_no_host_are_refused() {
    for (address, expected) in [
        (0x0000_0000, false),
        (0x0001_0203, false),
        (0x0100_0000, true),
        (0x7f00_0001, true),
        (0xdfff_ffff, true),
        (0xe000_0001, false),
        (0xf000_0001, false),
        (0xffff_ffff, false),
    ] {
        assert_eq!(unicast(IpAddress::V4(address)), expected);
    }
    for (address, expected) in [
        (0, false),
        (1, true),
        (0xff02u128 << 112, false),
        (0xfe80u128 << 112, true),
        (0xffff_0102_0304u128, false),
    ] {
        assert_eq!(unicast(IpAddress::V6(address)), expected);
    }
}

#[test]
fn routes_follow_the_flow_or_the_datagram() {
    let f = flow(false);
    let mut encoder = Encoder::new(1280);
    let whole = encoder.encode(f.source, f.destination, b"x").unwrap();
    assert_eq!(parse(&whole[0]).unwrap().route(), Some(RouteKey::Flow(UDP, f)));
    assert_eq!(parse(&whole[0]).unwrap().first_route(), None);
    let frames = encoder.encode(f.source, f.destination, &[0; 3000]).unwrap();
    let first = parse(&frames[0]).unwrap();
    let second = parse(&frames[1]).unwrap();
    assert_eq!(first.route(), second.route());
    assert!(matches!(first.route(), Some(RouteKey::Fragment(_))));
    assert_eq!(first.first_route(), Some(RouteKey::Flow(UDP, f)));
    assert_eq!(second.first_route(), None);
}

#[test]
fn replies_need_a_source_of_the_clients_family() {
    let f = flow(false);
    let usable = SocketAddress::new(IpAddress::V4(0x0808_0808), 53);
    assert_eq!(reply_flow(f, usable), Some((usable, f.source)));
    assert_eq!(reply_flow(f, SocketAddress::new(IpAddress::V6(1), 53)), None);
    assert_eq!(reply_flow(f, SocketAddress::new(IpAddress::V4(0xe000_0001), 53)), None);
}

#[test]
fn a_reset_acknowledges_what_a_request_carries() {
    let syn = decoded(&segment(flow(true), -1, None, smoltcp::wire::TcpControl::Syn, b"abc"));
    let Some(Transmit::Packet(bytes)) = Rejector::new().reject(&syn, true) else {
        panic!("packet expected")
    };
    assert_eq!(bytes.len(), 60);
    let reply = decoded(&bytes);
    let tcp = reply.tcp().unwrap();
    assert_eq!(tcp.fields.ack_number, Some(3));
    assert_eq!(tcp.fields.seq_number, 0);
    assert_eq!(tcp.flow.source, flow(true).destination);
    assert_eq!(tcp.flow.destination, flow(true).source);
    assert!(tcp.payload.is_empty());
    assert_eq!(tcp.fields.options.max_seg_size, None);
    // A segment that neither opens nor acknowledges is answered from zero.
    let fin = decoded(&segment(flow(true), 7, None, smoltcp::wire::TcpControl::Fin, &[]));
    let Some(Transmit::Packet(bytes)) = Rejector::new().reject(&fin, true) else {
        panic!("packet expected")
    };
    let reply = decoded(&bytes);
    let tcp = reply.tcp().unwrap();
    assert_eq!((tcp.fields.seq_number, tcp.fields.ack_number), (0, None));
}

#[test]
fn options_of_a_segment_are_read() {
    let syn = decoded(&segment(flow(false), 1, None, smoltcp::wire::TcpControl::Syn, &[]));
    let tcp = syn.tcp().unwrap();
    assert_eq!(tcp.fields.options.max_seg_size, Some(1220));
    assert_eq!(tcp.fields.window_len, 65535);
    assert_eq!(tcp.fields.header_len, 24);
}

#[test]
fn datagrams_expire_with_their_first_fragment() {
    let f = flow(false);
    let frames = Encoder::new(1280)
        .encode_as(f.source, f.destination, &[6; 3000], 9)
        .unwrap();
    let mut limits = Limits::new(ALLOWANCE);
    let mut decoder = Decoder::new();
    assert!(decoder.decode(&mut limits, &frames[0], 0).is_none());
    assert!(decoder.decode(&mut limits, &frames[1], 59_999).is_none());
    assert_eq!(decoder.deadline(), Some(REASSEMBLY_LIFETIME));
    assert!(decoder.decode(&mut limits, &frames[2], 60_000).is_none());
    assert_eq!(decoder.deadline(), Some(120_000));
}

fn checksum_of(bytes: &[u8]) -> u16 {
    !smoltcp::wire::checksum::data(bytes)
}

#[test]
fn segments_are_read_back_with_their_options_whoever_completes_the_checksum() {
    for ipv6 in [false, true] {
        let flow = flow(ipv6);
        let options = TcpOptions {
            max_seg_size: Some(1220),
            window_scale: Some(14),
            sack_permitted: false,
            sack_ranges: [Some((1, 2)), None, None],
            timestamp: Some((3, 4)),
        };
        let fields = TcpFields {
            source_port: flow.source.port,
            destination_port: flow.destination.port,
            control: TcpControl::Fin,
            seq_number: 0xffff_fffe,
            ack_number: Some(77),
            window_len: 1234,
            options,
            header_len: options.header_len(),
        };
        assert_eq!(fields.header_len, 48);
        let ip = IpHeader {
            source: flow.source.ip,
            destination: flow.destination.ip,
            protocol: TCP,
            payload_len: 53,
            hop_limit: 64,
        };
        let packet = encode_segment(&ip, &fields, b"hello", false);
        let read = decoded(&packet);
        let segment = read.tcp().unwrap();
        assert_eq!((segment.flow, segment.fields, segment.payload), (flow, fields, &b"hello"[..]));

        // The device adds the payload and completes the checksum.
        let mut completed = encode_segment(&ip, &fields, b"", true);
        let at = ip.header_len();
        completed.extend_from_slice(b"hello");
        let sum = checksum_of(&completed[at..]);
        completed[at + 16..at + 18].copy_from_slice(&sum.to_be_bytes());
        assert_eq!(completed, packet);

        // A larger scale is read as the largest that is defined.
        let mut wide = fields;
        wide.options.window_scale = Some(15);
        let packet = encode_segment(&ip, &wide, b"hello", false);
        assert_eq!(decoded(&packet).tcp().unwrap().fields, fields);
    }
}

#[test]
fn a_datagram_whose_checksum_the_device_completes_is_the_plain_one() {
    for ipv6 in [false, true] {
        let flow = flow(ipv6);
        let (source, destination) = (flow.source, flow.destination);
        let mut encoder = Encoder::new(1500);
        let header = encoder.header(source, destination, 3, 3).unwrap();
        let at = header.len() - 8;
        let mut frame = header.to_vec();
        frame.extend_from_slice(b"abc");
        let sum = checksum_of(&frame[at..]);
        frame[at + 6..at + 8].copy_from_slice(&sum.to_be_bytes());
        let plain = encoder.encode(source, destination, b"abc").unwrap();
        assert_eq!(plain, [frame]);
    }
}

#[test]
fn a_worker_takes_in_its_own_frames_and_forwards_the_others() {
    let flow = flow(false);
    let mut limits = Limits::new(ALLOWANCE);
    let mut decoder = Decoder::new();
    let mut encoder = Encoder::new(1280);
    let frames = encoder.encode(flow.source, flow.destination, &[7; 2000]).unwrap();
    let keys: Vec<_> = frames.iter().map(|frame| routed(frame).unwrap().1).collect();
    assert_eq!(keys[0], keys[1]);
    let mut take = |index: usize, mine: bool| {
        let (parsed, _) = routed(&frames[index]).unwrap();
        match frame(parsed, mine, &mut decoder, &mut limits, 0) {
            Framed::Forward => None,
            Framed::Wait => Some(0),
            Framed::Whole(packet) => Some(packet.udp().unwrap().1.len()),
        }
    };
    assert_eq!(take(0, false), None);
    assert_eq!(take(1, true), Some(0));
    assert_eq!(take(0, true), Some(2000));
    assert!(routed(&frames[0][..10]).is_none());
    assert!(routed(&[]).is_none());
}

/// Puts a reset into a queue, if the queue has room for what it counts for.
fn reject_into(
    rejector: &mut Rejector,
    packet: &Packet<'_>,
    queue: &mut VecDeque<Transmit>,
    room: &mut usize,
) -> bool {
    let cost = rejector.cost(packet).unwrap();
    let Some(reply) = rejector.reject(packet, cost <= *room) else {
        return false;
    };
    assert_eq!(reply.size(), cost);
    *room -= cost;
    queue.push_back(reply);
    true
}

#[test]
fn dropped_resets_do_not_scatter_queued_packets_across_blocks() {
    let mut rejector = Rejector::new();
    let mut replies = VecDeque::new();
    let mut room = 128 * 1024;
    let bytes = segment(flow(false), 100, None, smoltcp::wire::TcpControl::Syn, &[]);
    let syn = decoded(&bytes);
    let mut queued = 0;
    while reject_into(&mut rejector, &syn, &mut replies, &mut room) {
        queued += 1;
    }
    assert!(queued * 40 > 16 * 1024);

    // Keep the queue full while repeatedly dropping enough responses to consume an
    // entire arena block if they were encoded before they are admitted.
    for _ in 0..queued {
        room += replies.pop_front().unwrap().size();
        assert!(reject_into(&mut rejector, &syn, &mut replies, &mut room));
        for _ in 0..512 {
            assert!(!reject_into(&mut rejector, &syn, &mut replies, &mut room));
        }
    }
    let mut packets = Vec::new();
    while let Some(Transmit::Packet(packet)) = replies.pop_front() {
        assert_eq!(packet.len(), 40);
        assert_eq!(decoded(&packet).tcp().unwrap().fields.control, TcpControl::Rst);
        packets.push(packet);
    }
    assert_eq!(packets.len(), queued);
    // Retain every view while checking contiguous packing, so allocator reuse
    // cannot make unrelated blocks appear to be shared.
    let blocks = 1 + packets
        .windows(2)
        .filter(|pair| pair[1].as_ptr() as usize != pair[0].as_ptr() as usize + pair[0].len())
        .count();
    assert!(blocks * 16 * 1024 <= queued * 40 * 2 + 2 * 16 * 1024);
}

#[test]
fn udp_replies_share_packetization_and_preserve_complete_datagrams() {
    let source = IpAddress::V4(0xc633_6401);
    let destination = SocketAddress::new(IpAddress::V4(0xc000_0202), 12345);
    let mut encoders = vec![Encoder::new(1280)];
    encoders.push(encoders[0].clone());
    let mut ids = std::collections::HashSet::new();
    let mut decoder = Decoder::new();
    let mut limits = Limits::new(ALLOWANCE);
    let mut complete = Vec::new();
    for (port, encoder) in [443, 8443].into_iter().zip(&mut encoders) {
        let item = Transmit::Datagram {
            source: SocketAddress::new(source, port),
            destination,
            payload: vec![7; 2500].into(),
        };
        for action in plan(encoder, VecDeque::from([item]), false) {
            let Action::Batch(packets) = action else { panic!("packets") };
            for packet in packets {
                let header = Ipv4Packet::new_checked(&packet).unwrap();
                if header.frag_offset() == 0 {
                    assert!(ids.insert(header.ident()));
                }
                if let Some(packet) = decoder.decode(&mut limits, &packet, 0) {
                    complete.push(packet.into_owned());
                }
            }
        }
    }
    assert_eq!(complete.len(), 2);
    for packet in complete {
        assert_eq!(packet.udp().unwrap().1, vec![7; 2500]);
    }
}

#[test]
fn uneven_fragments_complete_with_the_last_in_either_direction() {
    let flow = flow(true);
    let whole = Encoder::new(65535)
        .encode(flow.source, flow.destination, &[9; 1000])
        .unwrap();
    let datagram = &whole[0][40..];
    let cuts = [0, 16, 24, 264, 800, datagram.len()];
    for reverse in [false, true] {
        let mut limits = Limits::new(ALLOWANCE);
        let mut decoder = Decoder::new();
        let mut order: Vec<usize> = (0..cuts.len() - 1).collect();
        if reverse {
            order.reverse();
        }
        for (count, index) in order.iter().enumerate() {
            let (start, end) = (cuts[*index], cuts[index + 1]);
            let frame =
                ipv6_fragment(&datagram[start..end], UDP, start, end < datagram.len(), 5);
            let packet = decoder.decode(&mut limits, &frame, count as u64);
            assert_eq!(packet.is_some(), count == 4);
            if let Some(packet) = packet {
                assert_eq!(packet.udp().unwrap(), (flow, &[9; 1000][..]));
            }
        }
        assert_eq!((limits.used, decoder.deadline()), (0, None));
    }
}

#[test]
fn a_datagram_that_was_given_up_yields_nothing_until_it_expires() {
    let flow = flow(true);
    let whole = Encoder::new(65535)
        .encode(flow.source, flow.destination, &[9; 100])
        .unwrap();
    let datagram = &whole[0][40..];
    let first = ipv6_fragment(&datagram[..64], UDP, 0, true, 5);
    let last = ipv6_fragment(&datagram[64..], UDP, 64, false, 5);
    let mut limits = Limits::new(ALLOWANCE);
    let mut decoder = Decoder::new();
    assert!(decoder.decode(&mut limits, &first, 10).is_none());
    assert!(decoder.decode(&mut limits, &first, 20).is_none());
    for now in [30, 40, 10 + REASSEMBLY_LIFETIME - 1] {
        assert!(decoder.decode(&mut limits, &first, now).is_none());
        assert!(decoder.decode(&mut limits, &last, now).is_none());
        assert_eq!(decoder.deadline(), Some(10 + REASSEMBLY_LIFETIME));
    }
    let now = 10 + REASSEMBLY_LIFETIME;
    assert!(decoder.decode(&mut limits, &first, now).is_none());
    let packet = decoder.decode(&mut limits, &last, now).unwrap();
    assert_eq!(packet.udp().unwrap().1, [9; 100]);
}

#[test]
fn fragments_from_several_queues_meet_and_reach_the_owner_of_the_flow() {
    for ipv6 in [false, true] {
        let flow = flow(ipv6);
        // Three workers; a key belongs to the worker that this function says.
        let owner = |key: RouteKey| match key {
            RouteKey::Flow(..) => 0,
            RouteKey::Fragment(_) => 2,
        };
        let mut limits = Limits::new(ALLOWANCE);
        let mut decoders = [Decoder::new(), Decoder::new(), Decoder::new()];
        let mut received = Vec::new();
        let mut encoder = Encoder::new(1280);
        let mut frames = encoder.encode(flow.source, flow.destination, &[7; 2500]).unwrap();
        frames.reverse();
        let small = encoder.encode(flow.source, flow.destination, b"small").unwrap();
        frames.push(small[0].clone());
        for bytes in &frames {
            // Whichever queue reads it, the owner of its route takes it in.
            let (parsed, key) = routed(bytes).unwrap();
            let at = owner(key);
            if let Framed::Whole(packet) = frame(parsed, true, &mut decoders[at], &mut limits, 0) {
                let (flow, payload) = packet.udp().unwrap();
                received.push((owner(RouteKey::Flow(UDP, flow)), payload.len()));
            }
        }
        assert_eq!(received, [(0, 2500), (0, 5)]);
    }
}

#[test]
fn refused_datagrams_use_no_identification_up() {
    let flow = flow(true);
    let mut encoder = Encoder::new(1280);
    let id = |frames: &[bytes::Bytes]| {
        let header = &frames[0][44..48];
        u32::from_be_bytes([header[0], header[1], header[2], header[3]])
    };
    let first = id(&encoder.encode(flow.source, flow.destination, &[0; 3000]).unwrap());
    assert!(encoder.encode(flow.source, flow.destination, &[0; 65528]).is_none());
    let portless = SocketAddress::new(flow.source.ip, 0);
    assert!(encoder.encode(portless, flow.destination, &[0; 3000]).is_none());
    assert!(encoder.encode(flow.source, flow.destination, b"small").is_some());
    let second = id(&encoder.encode(flow.source, flow.destination, &[0; 3000]).unwrap());
    assert_eq!(second, first.wrapping_add(1));
}
