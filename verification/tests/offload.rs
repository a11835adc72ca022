//! Virtio frames, their headers, and what the device makes of aggregates.
use kotoconn::decoder::Decoder;
use kotoconn::offload::{invalid, normalize, tcp_gso_header, udp_gso_header, VIRTIO_LEN};
use kotoconn::packet::{offload_transport, Flow, Packet, Payload};
use kotoconn::reassembly::Limits;
use kotoconn::segment::{emit_scattered, scattered_cost};
use kotoconn::storage::PacketArena;
use kotoconn::tcp_storage::Storage;
use kotoconn::transmit::Transmit;
use kotoconn::udp::Encoder;
use kotoconn::wire::{
    IpAddress, IpHeader, SocketAddress, TcpControl, TcpFields, TcpOptions, TCP, UDP,
};
use bytes::Bytes;
use smoltcp::phy::ChecksumCapabilities;
use smoltcp::wire::{IpProtocol, TcpPacket, TcpRepr, TcpSeqNumber, UdpPacket};
use tun_rs::{VirtioNetHdr, VIRTIO_NET_HDR_GSO_UDP_L4, VIRTIO_NET_HDR_LEN};

fn flow(ipv6: bool) -> Flow {
    if ipv6 {
        Flow {
            source: SocketAddress::new(IpAddress::V6((0xfd00u128 << 112) | 2), 12345),
            destination: SocketAddress::new(IpAddress::V6((0x2001_0db8u128 << 96) | 1), 443),
        }
    } else {
        Flow {
            source: SocketAddress::new(IpAddress::V4(0xc000_0202), 12345),
            destination: SocketAddress::new(IpAddress::V4(0xc633_6401), 443),
        }
    }
}

fn outside(address: IpAddress) -> smoltcp::wire::IpAddress {
    match address {
        IpAddress::V4(a) => smoltcp::wire::IpAddress::Ipv4(a.into()),
        IpAddress::V6(a) => smoltcp::wire::IpAddress::Ipv6(a.into()),
    }
}

fn decoded(bytes: &[u8]) -> Packet<'static> {
    Decoder::new().decode(&mut Limits::new(4 * 128 * 1024), bytes, 0).unwrap().into_owned()
}

#[test]
fn gso_tcp_preserves_aggregate_bytes_sequence_and_flags_in_both_families() {
    for ipv6 in [false, true] {
        let payload: Vec<u8> = (0..60000).map(|i| (i % 251) as u8).collect();
        let flow = flow(ipv6);
        let repr = TcpRepr {
            src_port: flow.source.port,
            dst_port: flow.destination.port,
            control: smoltcp::wire::TcpControl::Psh,
            seq_number: TcpSeqNumber(100),
            ack_number: Some(TcpSeqNumber(200)),
            window_len: 65535,
            window_scale: None,
            max_seg_size: Some(1220),
            sack_permitted: false,
            sack_ranges: [None; 3],
            timestamp: None,
            payload: &payload,
        };
        let mut bytes = vec![0; repr.buffer_len()];
        repr.emit(
            &mut TcpPacket::new_unchecked(&mut bytes[..]),
            &outside(flow.source.ip),
            &outside(flow.destination.ip),
            &ChecksumCapabilities::default(),
        );
        let packet = Packet {
            ip: IpHeader {
                source: flow.source.ip,
                destination: flow.destination.ip,
                protocol: TCP,
                payload_len: bytes.len(),
                hop_limit: 64,
            },
            payload: Payload::Owned(bytes),
        }
        .encode();
        let header = VirtioNetHdr {
            flags: 1,
            gso_type: if ipv6 {
                tun_rs::VIRTIO_NET_HDR_GSO_TCPV6
            } else {
                tun_rs::VIRTIO_NET_HDR_GSO_TCPV4
            },
            hdr_len: 0, // Linux forwarding may report an unusable hdr_len.
            gso_size: 1220,
            csum_start: if ipv6 { 40 } else { 20 },
            csum_offset: 16,
        };
        let mut frame = vec![0; VIRTIO_NET_HDR_LEN];
        header.encode(&mut frame).unwrap();
        frame.extend_from_slice(&packet);
        let Ok(found) = normalize(&mut frame) else {
            panic!("valid frame")
        };
        let packet = decoded(&frame[VIRTIO_NET_HDR_LEN..]);
        let tcp = packet.tcp_with_checksum(found.checksum_verified).unwrap();
        assert_eq!(tcp.flow, flow);
        assert_eq!(tcp.fields.seq_number, 100);
        assert_eq!(tcp.fields.ack_number, Some(200));
        assert_eq!(tcp.fields.control, TcpControl::Psh);
        assert_eq!(tcp.payload, payload);
        assert!(found.udp_segment_size.is_none());
    }
}

#[test]
fn gso_udp_preserves_payload_and_segment_size_in_both_families() {
    for (ipv6, segment_size) in [(false, 1000), (true, 1000), (false, 8), (true, 8)] {
        let flow = flow(ipv6);
        let payload: Vec<u8> = (0..2501).map(|i| (i % 251) as u8).collect();
        let packet = Encoder::new(65535)
            .encode(flow.source, flow.destination, &payload)
            .unwrap()
            .remove(0)
            .to_vec();
        let header = VirtioNetHdr {
            flags: 1,
            gso_type: VIRTIO_NET_HDR_GSO_UDP_L4,
            hdr_len: 0,
            gso_size: segment_size as u16,
            csum_start: if ipv6 { 40 } else { 20 },
            csum_offset: 6,
        };
        let mut frame = vec![0; VIRTIO_NET_HDR_LEN];
        header.encode(&mut frame).unwrap();
        frame.extend_from_slice(&packet);
        let Ok(found) = normalize(&mut frame) else {
            panic!("valid frame")
        };
        let packet = decoded(&frame[VIRTIO_NET_HDR_LEN..]);
        let (actual_flow, actual) = packet.udp_with_checksum(found.checksum_verified).unwrap();
        assert_eq!(actual_flow, flow);
        assert_eq!(found.udp_segment_size, Some(segment_size as u16));
        assert_eq!(actual, payload);
    }
}

#[test]
fn udp_offload_encodes_a_computed_zero_checksum_as_all_ones() {
    for ipv6 in [false, true] {
        let flow = flow(ipv6);
        let start = if ipv6 { 40 } else { 20 };
        let mut encoder = Encoder::new(65535);
        let seed = encoder
            .encode(flow.source, flow.destination, &[0; 2])
            .unwrap()
            .remove(0)
            .to_vec();
        // Adding this word to the payload makes the computed checksum zero.
        let payload = UdpPacket::new_checked(&seed[start..]).unwrap().checksum().to_be_bytes();
        for gso in [false, true] {
            let data = if gso { payload.repeat(2) } else { payload.to_vec() };
            let mut packet = encoder
                .encode(flow.source, flow.destination, &data)
                .unwrap()
                .remove(0)
                .to_vec();
            if !gso {
                let mut udp = UdpPacket::new_checked(&mut packet[start..]).unwrap();
                assert_eq!(udp.checksum(), 0xffff);
                udp.set_checksum(smoltcp::wire::checksum::pseudo_header(
                    &outside(flow.source.ip),
                    &outside(flow.destination.ip),
                    IpProtocol::Udp,
                    10,
                ));
            }
            let header = VirtioNetHdr {
                flags: 1,
                gso_type: if gso { VIRTIO_NET_HDR_GSO_UDP_L4 } else { 0 },
                hdr_len: 0,
                gso_size: if gso { 2 } else { 0 },
                csum_start: start as u16,
                csum_offset: 6,
            };
            let mut frame = vec![0; VIRTIO_NET_HDR_LEN];
            header.encode(&mut frame).unwrap();
            frame.extend_from_slice(&packet);
            let Ok(found) = normalize(&mut frame) else {
                panic!("valid frame")
            };
            let packet = decoded(&frame[VIRTIO_NET_HDR_LEN..]);
            let (_, actual) = packet.udp_with_checksum(found.checksum_verified).unwrap();
            let parts: Vec<_> = actual
                .chunks(found.udp_segment_size.map(usize::from).unwrap_or(actual.len()))
                .collect();
            assert_eq!(parts.len(), if gso { 2 } else { 1 });
            for part in parts {
                assert_eq!(part, payload);
                let encoded = encoder.encode(flow.source, flow.destination, part).unwrap();
                assert_eq!(
                    UdpPacket::new_checked(&encoded[0][start..]).unwrap().checksum(),
                    0xffff
                );
                assert_eq!(decoded(&encoded[0]).udp().unwrap().1, payload);
            }
        }
    }
}

#[test]
fn udp_output_views_segment_into_valid_wire_datagrams() {
    for ipv6 in [false, true] {
        let flow = flow(ipv6);
        let mut encoder = Encoder::new(1500);
        let size = 1232;
        let payload: Vec<u8> = (0..3).flat_map(|i| vec![i; size]).collect();
        let header = encoder
            .header(flow.source, flow.destination, size, payload.len())
            .unwrap();
        let mut aggregate = header.to_vec();
        aggregate.extend_from_slice(&payload);
        let metadata = VirtioNetHdr {
            flags: 1,
            gso_type: VIRTIO_NET_HDR_GSO_UDP_L4,
            hdr_len: header.len() as u16,
            gso_size: size as u16,
            csum_start: if ipv6 { 40 } else { 20 },
            csum_offset: 6,
        };
        let mut packets = vec![vec![0; 1500]; 3];
        let mut lengths = [0; 3];
        assert_eq!(
            tun_rs::gso_split(&mut aggregate, metadata, &mut packets, &mut lengths, 0, ipv6)
                .unwrap(),
            3
        );
        for (i, packet) in packets.iter().enumerate() {
            let packet = decoded(&packet[..lengths[i]]);
            let (actual, data) = packet.udp().unwrap();
            assert_eq!(actual, flow);
            assert_eq!(data, vec![i as u8; size]);
        }
        assert!(!encoder.can_offload(flow.source, flow.destination, 4096));
        assert!(
            encoder
                .encode(flow.source, flow.destination, &[0; 4096])
                .unwrap()
                .len()
                > 1
        );
    }
}

#[test]
fn offload_metadata_must_match_the_packet_before_checksums_can_be_trusted() {
    for ipv6 in [false, true] {
        let (source, destination) = if ipv6 {
            (
                SocketAddress::new(IpAddress::V6((0xfd00u128 << 112) | 2), 1234),
                SocketAddress::new(IpAddress::V6((0x2001_0db8u128 << 96) | 1), 9001),
            )
        } else {
            (
                SocketAddress::new(IpAddress::V4(0xc000_0202), 1234),
                SocketAddress::new(IpAddress::V4(0xc612_0001), 9001),
            )
        };
        let packet = Encoder::new(65535)
            .encode(source, destination, &[7; 3200])
            .unwrap()
            .remove(0);
        let valid = VirtioNetHdr {
            flags: 1,
            gso_type: VIRTIO_NET_HDR_GSO_UDP_L4,
            hdr_len: 0,
            gso_size: 1000,
            csum_start: if ipv6 { 40 } else { 20 },
            csum_offset: 6,
        };
        let encode = |header: VirtioNetHdr| {
            let mut bytes = vec![0; VIRTIO_NET_HDR_LEN];
            header.encode(&mut bytes).unwrap();
            bytes.extend_from_slice(&packet);
            bytes
        };
        let Ok(found) = normalize(&mut encode(valid)) else {
            panic!("valid frame")
        };
        assert_eq!((found.checksum_verified, found.udp_segment_size), (true, Some(1000)));
        for header in [
            VirtioNetHdr { flags: 0, ..valid },
            VirtioNetHdr {
                gso_size: 0,
                ..valid
            },
            VirtioNetHdr {
                csum_start: valid.csum_start + 1,
                ..valid
            },
            VirtioNetHdr {
                csum_offset: 16,
                ..valid
            },
            VirtioNetHdr {
                gso_type: tun_rs::VIRTIO_NET_HDR_GSO_TCPV4,
                ..valid
            },
        ] {
            assert!(normalize(&mut encode(header)).is_err());
        }
        let original = Bytes::from(encode(valid));
        for length in 0..VIRTIO_NET_HDR_LEN + usize::from(valid.csum_start) + 8 {
            assert!(normalize(&mut original[..length].to_vec()).is_err());
        }
    }
}

#[test]
fn native_gso_preserves_dual_stack_payload_sequence_and_checksums() {
    for ipv6 in [false, true] {
        let (source, destination) = if ipv6 {
            (
                IpAddress::V6((0xfd00u128 << 112) | 1),
                IpAddress::V6((0xfd00u128 << 112) | 2),
            )
        } else {
            (IpAddress::V4(0xc000_0201), IpAddress::V4(0xc000_0202))
        };
        let data: Vec<u8> = (0..60001).map(|n| (n % 251) as u8).collect();
        let fields = TcpFields {
            source_port: 443,
            destination_port: 12345,
            control: TcpControl::Psh,
            seq_number: 100,
            ack_number: Some(77),
            window_len: 1234,
            options: TcpOptions::none(),
            header_len: 20,
        };
        let ip = IpHeader {
            source,
            destination,
            protocol: TCP,
            payload_len: 20 + data.len(),
            hop_limit: 64,
        };
        let mut storage = Storage::new(128 * 1024, true);
        storage.hold(data.len());
        for part in data.chunks(8192) {
            storage.push(Bytes::copy_from_slice(part));
        }
        assert_eq!(scattered_cost(&ip, &storage, 0, data.len()), {
            let whole = ip.header_len() + ip.payload_len;
            whole + 8 * 32
        });
        let Transmit::TcpGso { packet, payload, segment_size } = emit_scattered(
            &mut PacketArena::new(),
            &ip,
            &fields,
            Some(1200),
            &storage,
            0,
            data.len(),
        ) else {
            panic!()
        };
        assert!(payload.len() > 1);
        let lengths: Vec<usize> = payload.iter().map(|part| part.len()).collect();
        assert_eq!(lengths, [8192, 8192, 8192, 8192, 8192, 8192, 8192, 2657]);
        storage.dequeue_allocated(data.len());
        let mut full_packet = packet.to_vec();
        for part in payload {
            full_packet.extend_from_slice(&part);
        }
        let packet = Bytes::from(full_packet);
        let Ok(header) = tcp_gso_header(&packet, segment_size) else {
            panic!("valid aggregate")
        };
        let header = VirtioNetHdr::decode(&header).unwrap();
        assert_eq!(header.flags, 1);
        assert_eq!(header.gso_size, 1200);
        let mut frames = vec![vec![0; 1280]; 51];
        let mut sizes = vec![0; frames.len()];
        let count =
            tun_rs::gso_split(&mut packet.to_vec(), header, &mut frames, &mut sizes, 0, ipv6)
                .unwrap();
        let mut reconstructed = Vec::new();
        for (index, (frame, len)) in frames.iter().zip(sizes).take(count).enumerate() {
            let packet = decoded(&frame[..len]);
            let tcp = packet.tcp().unwrap();
            assert_eq!(tcp.fields.seq_number as usize, 100 + reconstructed.len());
            assert_eq!(tcp.fields.ack_number, Some(77));
            assert!(tcp.payload.len() <= 1200);
            assert_eq!(tcp.fields.control == TcpControl::Psh, index + 1 == count);
            reconstructed.extend_from_slice(tcp.payload);
        }
        assert_eq!(reconstructed, data);
    }
}

#[test]
fn segments_are_copied_where_the_device_does_not_cut_them() {
    for ipv6 in [false, true] {
        let flow = flow(ipv6);
        let mut storage = Storage::new(128 * 1024, true);
        storage.hold(3000);
        storage.push(Bytes::from(vec![1; 1000]));
        storage.push(Bytes::from(vec![2; 2000]));
        let fields = TcpFields {
            source_port: flow.source.port,
            destination_port: flow.destination.port,
            control: TcpControl::Plain,
            seq_number: 5,
            ack_number: None,
            window_len: 9,
            options: TcpOptions { timestamp: Some((1, 2)), ..TcpOptions::none() },
            header_len: 32,
        };
        let ip = IpHeader {
            source: flow.source.ip,
            destination: flow.destination.ip,
            protocol: TCP,
            payload_len: 32 + 1200,
            hop_limit: 64,
        };
        let Transmit::Packet(packet) =
            emit_scattered(&mut PacketArena::new(), &ip, &fields, None, &storage, 900, 2100)
        else {
            panic!("packet expected")
        };
        let packet = decoded(&packet);
        let tcp = packet.tcp().unwrap();
        assert_eq!(tcp.flow, flow);
        assert_eq!(tcp.fields.options.timestamp, Some((1, 2)));
        assert_eq!(&tcp.payload[..100], &[1; 100]);
        assert_eq!(&tcp.payload[100..], &[2; 1100]);
    }
}

#[test]
fn every_rule_of_an_offloaded_frame_is_named() {
    let flow = flow(false);
    let udp = Encoder::new(65535).encode(flow.source, flow.destination, &[7; 32]).unwrap()[0]
        .to_vec();
    let header = VirtioNetHdr {
        flags: 1,
        gso_type: VIRTIO_NET_HDR_GSO_UDP_L4,
        hdr_len: 0,
        gso_size: 8,
        csum_start: 20,
        csum_offset: 6,
    };
    let message = |header: VirtioNetHdr, packet: &[u8]| {
        let mut frame = vec![0; VIRTIO_LEN];
        header.encode(&mut frame).unwrap();
        frame.extend_from_slice(packet);
        match normalize(&mut frame) {
            Ok(_) => String::new(),
            Err(error) => error.message,
        }
    };
    let plain = VirtioNetHdr { gso_type: 0, gso_size: 0, ..header };
    assert_eq!(message(header, &udp), "");
    assert_eq!(message(plain, &udp), "");
    assert_eq!(
        message(VirtioNetHdr { flags: 0, ..header }, &udp),
        "invalid GSO checksum or segment size"
    );
    assert_eq!(message(header, &[]), "invalid offload IP version");
    assert_eq!(message(header, &[0x50; 40]), "invalid offload IP version");
    assert_eq!(message(header, &[0x60; 39]), "invalid GSO IPv6 size");
    assert_eq!(message(header, &[0x60; 65576]), "invalid GSO IPv6 size");
    assert_eq!(message(header, &[0x45; 65536]), "invalid GSO IPv4 size");
    assert_eq!(message(header, &[0x45; 19]), "short GSO IPv4 header");
    let mut broken = udp.clone();
    broken[8] = 1;
    assert_eq!(message(plain, &broken), "invalid offload IP header or fragmented frame");
    let mut icmp = udp.clone();
    icmp[9] = 1;
    assert_eq!(message(header, &icmp), "unsupported offload transport");
    assert_eq!(
        message(VirtioNetHdr { csum_start: 24, ..header }, &udp),
        "offload checksum metadata does not match transport"
    );
    assert_eq!(
        message(VirtioNetHdr { gso_type: tun_rs::VIRTIO_NET_HDR_GSO_TCPV6, ..header }, &udp),
        "GSO type does not match UDP"
    );
    let mut tcp = udp.clone();
    tcp[9] = 6;
    assert_eq!(
        message(VirtioNetHdr { csum_offset: 16, ..header }, &tcp),
        "short offload TCP header"
    );
    tcp[32] = 0x50;
    assert_eq!(
        message(VirtioNetHdr { csum_offset: 16, ..header }, &tcp),
        "GSO type does not match TCP"
    );
    let mut short = udp.clone();
    short[25] = 99;
    assert_eq!(message(header, &short), "short offload UDP header");
    assert_eq!(invalid("reason").message, "reason");
    let mut nothing = vec![0; 9];
    assert!(normalize(&mut nothing).is_err_and(|e| e.message == "too short"));
    // A frame that asks for nothing is left alone, whatever it holds.
    let mut odd = vec![0; VIRTIO_LEN + 3];
    let Ok(found) = normalize(&mut odd) else {
        panic!("nothing was asked")
    };
    assert!(!found.checksum_verified);
    assert_eq!(odd, vec![0; VIRTIO_LEN + 3]);
}

#[test]
fn aggregates_have_these_headers() {
    let mut packet = vec![0; 60];
    packet[0] = 0x45;
    packet[32] = 0x80;
    let Ok(bytes) = tcp_gso_header(&packet, 1200) else {
        panic!("valid aggregate")
    };
    let header = VirtioNetHdr::decode(&bytes).unwrap();
    assert_eq!(header.gso_type, tun_rs::VIRTIO_NET_HDR_GSO_TCPV4);
    assert_eq!((header.hdr_len, header.csum_start, header.csum_offset), (52, 20, 16));
    let failure = |packet: &[u8], size: u16| match tcp_gso_header(packet, size) {
        Ok(_) => String::new(),
        Err(error) => error.message,
    };
    assert_eq!(failure(&[], 1), "invalid GSO IP version");
    assert_eq!(failure(&[0x45; 19], 1), "short GSO IP header");
    assert_eq!(failure(&[0x45; 39], 1), "invalid GSO TCP header");
    assert_eq!(failure(&packet, 0), "zero GSO segment size");

    for (parts, gso_type, gso_size) in [(1, 0, 0), (2, VIRTIO_NET_HDR_GSO_UDP_L4, 700)] {
        let Ok(bytes) = udp_gso_header(&[0x60], parts, 700) else {
            panic!("valid header")
        };
        let header = VirtioNetHdr::decode(&bytes).unwrap();
        assert_eq!((header.gso_type, header.gso_size), (gso_type, gso_size));
        assert_eq!((header.hdr_len, header.csum_start, header.csum_offset), (48, 40, 6));
    }
    assert!(udp_gso_header(&[0x10], 1, 700).is_err_and(|e| e.message == "invalid UDP IP version"));
}

#[test]
fn the_transport_is_found_behind_options_and_extensions() {
    let f = flow(true);
    let mut packet = Encoder::new(1280).encode(f.source, f.destination, b"x").unwrap()[0].to_vec();
    assert_eq!(offload_transport(&packet), Some((UDP, 40)));
    packet.splice(40..40, [UDP, 0, 1, 4, 0, 0, 0, 0]);
    packet[6] = 60;
    packet[5] += 8;
    assert_eq!(offload_transport(&packet), Some((UDP, 48)));
    let fragments = Encoder::new(1280).encode(f.source, f.destination, &[0; 3000]).unwrap();
    assert_eq!(offload_transport(&fragments[0]), None);
}
