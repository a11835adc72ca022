//! Fragments on their way to the worker that owns their datagram.
use bytes::Bytes;
use kotoconn::decoder::{Decoder, REASSEMBLY_LIFETIME};
use kotoconn::endpoint::Received;
use kotoconn::fragments::{Delivery, Routes, ENTRY_BYTES, RECEIVED_BYTES};
use kotoconn::packet::{parse, Flow, Packet, Payload, RouteKey};
use kotoconn::reassembly::Limits;
use kotoconn::udp::Encoder;
use kotoconn::wire::{IpAddress, IpHeader, SocketAddress, TcpControl, TCP};
use smoltcp::phy::ChecksumCapabilities;
use smoltcp::wire::{Ipv4Packet, Ipv6Packet, TcpPacket, TcpRepr, TcpSeqNumber};

const ALLOWANCE: usize = 4 * 128 * 1024;

fn flow(ipv6: bool) -> Flow {
    if ipv6 {
        Flow {
            source: SocketAddress::new(IpAddress::V6((0xfd00u128 << 112) | 2), 12345),
            destination: SocketAddress::new(IpAddress::V6((0x2001_0db8u128 << 96) | 1), 443),
        }
    } else {
        Flow {
            source: SocketAddress::new(IpAddress::V4(0xc000_0202), 12345),
            destination: SocketAddress::new(IpAddress::V4(0xc633_6401), 443),
        }
    }
}

fn outside(address: IpAddress) -> smoltcp::wire::IpAddress {
    match address {
        IpAddress::V4(a) => smoltcp::wire::IpAddress::Ipv4(a.into()),
        IpAddress::V6(a) => smoltcp::wire::IpAddress::Ipv6(a.into()),
    }
}

fn received(bytes: Vec<u8>) -> Received {
    let bytes = Bytes::from(bytes);
    Received {
        allocation_size: bytes.len(),
        bytes,
        checksum_verified: false,
        udp_segment_size: None,
    }
}

fn segment(flow: Flow, payload: &[u8]) -> Vec<u8> {
    let repr = TcpRepr {
        src_port: flow.source.port,
        dst_port: flow.destination.port,
        control: smoltcp::wire::TcpControl::Syn,
        seq_number: TcpSeqNumber(100),
        ack_number: None,
        window_len: 65535,
        window_scale: None,
        max_seg_size: Some(1220),
        sack_permitted: false,
        sack_ranges: [None; 3],
        timestamp: None,
        payload,
    };
    let mut bytes = vec![0; repr.buffer_len()];
    repr.emit(
        &mut TcpPacket::new_unchecked(&mut bytes[..]),
        &outside(flow.source.ip),
        &outside(flow.destination.ip),
        &ChecksumCapabilities::default(),
    );
    Packet {
        ip: IpHeader {
            source: flow.source.ip,
            destination: flow.destination.ip,
            protocol: TCP,
            payload_len: bytes.len(),
            hop_limit: 64,
        },
        payload: Payload::Owned(bytes),
    }
    .encode()
}

fn frames(ipv6: bool, tcp: bool) -> Vec<Vec<u8>> {
    let flow = flow(ipv6);
    if !tcp {
        return Encoder::new(1280)
            .encode(flow.source, flow.destination, &[7; 2500])
            .unwrap()
            .iter()
            .map(|frame| frame.to_vec())
            .collect();
    }
    let packet = segment(flow, &[7; 2500]);
    let header = if ipv6 { 40 } else { 20 };
    let parts: Vec<_> = packet[header..].chunks(1024).collect();
    parts
        .iter()
        .enumerate()
        .map(|(index, part)| {
            let mut bytes = packet[..header].to_vec();
            if ipv6 {
                bytes.extend_from_slice(&[6, 0]);
                bytes.extend_from_slice(
                    &(((index * 1024) | usize::from(index + 1 < parts.len())) as u16).to_be_bytes(),
                );
                bytes.extend_from_slice(&42u32.to_be_bytes());
                bytes.extend_from_slice(part);
                let mut ip = Ipv6Packet::new_unchecked(&mut bytes);
                ip.set_next_header(smoltcp::wire::IpProtocol::Ipv6Frag);
                ip.set_payload_len((8 + part.len()) as u16);
            } else {
                bytes.extend_from_slice(part);
                let mut ip = Ipv4Packet::new_unchecked(&mut bytes);
                ip.set_total_len((header + part.len()) as u16);
                ip.set_ident(42);
                ip.set_dont_frag(false);
                ip.set_more_frags(index + 1 < parts.len());
                ip.set_frag_offset((index * 1024) as u16);
                ip.fill_checksum();
            }
            bytes
        })
        .collect()
}

fn route(
    routes: &mut Routes,
    limits: &mut Limits,
    frame: Received,
    now: u64,
) -> Option<Delivery> {
    let (key, owner) = {
        let parsed = parse(&frame.bytes).unwrap();
        let RouteKey::Fragment(key) = parsed.route().unwrap() else {
            panic!("fragment required")
        };
        (key, parsed.first_route().map(|_| 1))
    };
    routes.route(limits, 0, key, owner, frame, now).delivery
}

fn decode(
    routes: &mut Routes,
    limits: &mut Limits,
    decoder: &mut Decoder,
    delivery: Delivery,
    now: u64,
) -> Vec<Packet<'static>> {
    assert_eq!(delivery.owner, 1);
    let mut result = Vec::new();
    let binding = delivery.binding;
    let mut consume = |routes: &mut Routes, limits: &mut Limits, frame: &Received| {
        let active = routes.active(&binding, now);
        if let Some(packet) = decoder.decode_fragment(limits, &frame.bytes, now, &binding, active) {
            result.push(packet.into_owned());
        }
        if !decoder.retains(&binding) {
            routes.finish(limits, &binding);
        }
    };
    if let Some(pending) = delivery.pending {
        for frame in &pending.frames {
            consume(routes, limits, frame);
        }
        pending.release(limits);
    }
    consume(routes, limits, &delivery.frame);
    routes.release(limits, &binding);
    result
}

#[test]
fn first_fragment_binds_tcp_and_udp_with_out_of_order_arrivals() {
    for ipv6 in [false, true] {
        for tcp in [false, true] {
            for turn in 0..6 {
                let mut limits = Limits::new(ALLOWANCE);
                let mut routes = Routes::new(2);
                let frames = frames(ipv6, tcp);
                let order =
                    [[0, 1, 2], [0, 2, 1], [1, 0, 2], [1, 2, 0], [2, 0, 1], [2, 1, 0]][turn];
                let mut deliveries = Vec::new();
                for index in order.into_iter().filter(|index| *index < frames.len()) {
                    deliveries.extend(route(
                        &mut routes,
                        &mut limits,
                        received(frames[index].clone()),
                        0,
                    ));
                }
                let mut decoder = Decoder::new();
                let mut packets = Vec::new();
                for delivery in deliveries.into_iter().rev() {
                    packets.extend(decode(&mut routes, &mut limits, &mut decoder, delivery, 0));
                }
                assert_eq!(packets.len(), 1);
                if tcp {
                    let tcp = packets[0].tcp().unwrap();
                    assert_eq!(tcp.flow, flow(ipv6));
                    assert_eq!(tcp.fields.control, TcpControl::Syn);
                    assert_eq!(tcp.payload, [7; 2500]);
                } else {
                    assert_eq!(packets[0].udp().unwrap(), (flow(ipv6), &[7; 2500][..]));
                }
                assert_eq!(limits.used, 0);
            }
        }
    }
}

#[test]
fn orphan_chunks_move_without_copy_and_reassembly_keeps_the_original_deadline() {
    let mut limits = Limits::new(ALLOWANCE);
    let mut routes = Routes::new(2);
    let frames = frames(true, false);
    let now = 1000;
    let tail = received(frames[2].clone());
    let pointer = tail.bytes.as_ptr();
    assert!(route(&mut routes, &mut limits, tail, now).is_none());
    let delivery =
        route(&mut routes, &mut limits, received(frames[0].clone()), now + 59_000).unwrap();
    assert_eq!(
        delivery.pending.as_ref().unwrap().frames[0].bytes.as_ptr(),
        pointer
    );
    assert_eq!(delivery.binding.expires, now + REASSEMBLY_LIFETIME);
    let mut decoder = Decoder::new();
    assert!(decode(&mut routes, &mut limits, &mut decoder, delivery, now + 59_000).is_empty());
    assert_eq!(decoder.deadline(), Some(now + REASSEMBLY_LIFETIME));
    decoder.expire(&mut limits, now + REASSEMBLY_LIFETIME);
    assert_eq!(decoder.deadline(), None);
    // An ID reused after expiry cannot complete with the old tail.
    let later = now + REASSEMBLY_LIFETIME;
    let delivery = route(&mut routes, &mut limits, received(frames[0].clone()), later).unwrap();
    assert!(decode(&mut routes, &mut limits, &mut decoder, delivery, later).is_empty());
    let delivery = route(&mut routes, &mut limits, received(frames[1].clone()), later).unwrap();
    assert!(decode(&mut routes, &mut limits, &mut decoder, delivery, later).is_empty());
}

#[test]
fn orphan_admission_charges_storage_and_releases_on_its_deadline_or_under_pressure() {
    for reclaim in [false, true] {
        let allowance = 4096;
        let mut limits = Limits::new(allowance);
        let mut routes = Routes::new(2);
        let frames = frames(false, false);
        // A short view can retain a much larger allocation.
        let mut block = vec![0; allowance];
        block[..frames[1].len()].copy_from_slice(&frames[1]);
        let frame = Received {
            bytes: Bytes::from(block).slice(..frames[1].len()),
            allocation_size: allowance,
            checksum_verified: false,
            udp_segment_size: None,
        };
        assert!(route(&mut routes, &mut limits, frame, 0).is_none());
        let lease = limits.reserve(allowance).unwrap();
        limits.release(lease);

        assert!(route(&mut routes, &mut limits, received(frames[1].clone()), 0).is_none());
        assert_eq!(limits.used, ENTRY_BYTES + frames[1].len() + RECEIVED_BYTES);
        assert!(limits.reserve(allowance).is_none());
        if reclaim {
            assert!(routes.discard_oldest_pending(&mut limits, 0));
            assert!(!routes.discard_oldest_pending(&mut limits, 0));
            assert!(!routes.discard_oldest_pending(&mut limits, 1));
        } else {
            assert_eq!(routes.next_expiry(), Some(REASSEMBLY_LIFETIME));
            routes.expire(&mut limits, REASSEMBLY_LIFETIME);
            assert_eq!(routes.next_expiry(), None);
        }
        assert!(limits.reserve(allowance).is_some());
    }
}

#[test]
fn queued_old_fragments_cannot_poison_a_reused_id() {
    let mut limits = Limits::new(ALLOWANCE);
    let mut routes = Routes::new(2);
    let mut decoder = Decoder::new();
    let frames = frames(true, false);
    let first = route(&mut routes, &mut limits, received(frames[0].clone()), 0).unwrap();
    let stale = route(&mut routes, &mut limits, received(frames[0].clone()), 0).unwrap();
    assert!(decode(&mut routes, &mut limits, &mut decoder, first, 0).is_empty());
    let mut packets = Vec::new();
    for frame in &frames[1..] {
        let delivery = route(&mut routes, &mut limits, received(frame.clone()), 0).unwrap();
        packets.extend(decode(&mut routes, &mut limits, &mut decoder, delivery, 0));
    }
    assert_eq!(packets.len(), 1);
    let first = route(&mut routes, &mut limits, received(frames[0].clone()), 0).unwrap();
    assert_ne!(stale.binding, first.binding);
    assert!(decode(&mut routes, &mut limits, &mut decoder, first, 0).is_empty());
    assert!(decode(&mut routes, &mut limits, &mut decoder, stale, 0).is_empty());
    let mut packets = Vec::new();
    for frame in &frames[1..] {
        let delivery = route(&mut routes, &mut limits, received(frame.clone()), 0).unwrap();
        packets.extend(decode(&mut routes, &mut limits, &mut decoder, delivery, 0));
    }
    assert_eq!(packets.len(), 1);
}

#[test]
fn conflicting_ipv6_first_headers_share_one_poisoned_binding() {
    let mut limits = Limits::new(ALLOWANCE);
    let mut routes = Routes::new(2);
    let mut decoder = Decoder::new();
    let frames = frames(true, false);
    let first = route(&mut routes, &mut limits, received(frames[0].clone()), 0).unwrap();
    let binding = first.binding;
    assert!(decode(&mut routes, &mut limits, &mut decoder, first, 0).is_empty());
    let mut conflicting = frames[0].clone();
    conflicting[40] = 6;
    let RouteKey::Fragment(key) = parse(&conflicting).unwrap().route().unwrap() else {
        panic!("fragment required")
    };
    let conflicting = routes
        .route(&mut limits, 0, key, Some(0), received(conflicting), 0)
        .delivery
        .unwrap();
    assert_eq!(conflicting.owner, 1);
    assert_eq!(binding, conflicting.binding);
    assert!(decode(&mut routes, &mut limits, &mut decoder, conflicting, 0).is_empty());
    for frame in &frames[1..] {
        let delivery = route(&mut routes, &mut limits, received(frame.clone()), 0).unwrap();
        assert!(decode(&mut routes, &mut limits, &mut decoder, delivery, 0).is_empty());
    }
    assert!(decoder.retains(&binding));
    assert!(routes.active(&binding, 59_000));
    assert!(!routes.active(&binding, REASSEMBLY_LIFETIME));
}

#[test]
fn a_delivery_counts_its_frame_and_those_that_waited() {
    let mut limits = Limits::new(ALLOWANCE);
    let mut routes = Routes::new(1);
    let frames = frames(true, false);
    assert!(route(&mut routes, &mut limits, received(frames[1].clone()), 0).is_none());
    assert!(route(&mut routes, &mut limits, received(frames[2].clone()), 0).is_none());
    let delivery = route(&mut routes, &mut limits, received(frames[0].clone()), 0).unwrap();
    let bytes: usize = frames.iter().map(Vec::len).sum();
    assert_eq!(delivery.size(), bytes + 2 * RECEIVED_BYTES);
    let waiting = delivery.pending.as_ref().unwrap();
    assert_eq!(waiting.frames[0].bytes, frames[1]);
    assert_eq!(waiting.frames[1].bytes, frames[2]);
    // The frames leave once; a later fragment comes alone.
    let again = route(&mut routes, &mut limits, received(frames[1].clone()), 0).unwrap();
    assert!(again.pending.is_none());
}

#[test]
fn a_share_lasts_until_the_route_and_its_deliveries_are_gone() {
    for expires in [false, true] {
        let mut limits = Limits::new(ALLOWANCE);
        let mut routes = Routes::new(2);
        let frames = frames(true, false);
        let first = route(&mut routes, &mut limits, received(frames[0].clone()), 0).unwrap();
        let second = route(&mut routes, &mut limits, received(frames[1].clone()), 0).unwrap();
        let third = route(&mut routes, &mut limits, received(frames[2].clone()), 0).unwrap();
        assert_eq!((first.binding, first.binding), (second.binding, third.binding));
        routes.release(&mut limits, &first.binding);
        assert_eq!(limits.used, ENTRY_BYTES);
        if expires {
            routes.expire(&mut limits, REASSEMBLY_LIFETIME);
        } else {
            routes.finish(&mut limits, &first.binding);
        }
        // The route is over, but two deliveries are still on their way.
        assert!(!routes.active(&first.binding, 0));
        assert_eq!(limits.used, ENTRY_BYTES);
        // The key may be bound anew meanwhile, with a share of its own.
        let now = REASSEMBLY_LIFETIME;
        let fresh = route(&mut routes, &mut limits, received(frames[0].clone()), now).unwrap();
        assert_ne!(fresh.binding.number, first.binding.number);
        assert_eq!(limits.used, 2 * ENTRY_BYTES);
        routes.release(&mut limits, &second.binding);
        assert_eq!(limits.used, 2 * ENTRY_BYTES);
        routes.release(&mut limits, &third.binding);
        assert_eq!(limits.used, ENTRY_BYTES);
        // Nobody holds the old binding any more.
        routes.release(&mut limits, &third.binding);
        assert_eq!(limits.used, ENTRY_BYTES);
        routes.finish(&mut limits, &first.binding);
        assert!(routes.active(&fresh.binding, now));
        routes.release(&mut limits, &fresh.binding);
        assert_eq!(limits.used, ENTRY_BYTES);
        routes.finish(&mut limits, &fresh.binding);
        assert_eq!(limits.used, 0);
    }
}

#[test]
fn only_an_earlier_deadline_wakes_the_supervisor() {
    let mut limits = Limits::new(ALLOWANCE);
    let mut routes = Routes::new(1);
    let mut wake = |id: u32, now: u64| {
        let f = flow(false);
        let frames = Encoder::new(1280)
            .encode_as(f.source, f.destination, &[0; 3000], id)
            .unwrap();
        let RouteKey::Fragment(key) = parse(&frames[1]).unwrap().route().unwrap() else {
            panic!("fragment required")
        };
        routes
            .route(&mut limits, 0, key, None, received(frames[1].to_vec()), now)
            .earlier
    };
    assert!(wake(1, 10));
    assert!(!wake(1, 20));
    assert!(!wake(2, 20));
    assert!(wake(3, 5));
}
