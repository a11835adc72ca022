//! Blocks of bytes: TCP storage, packet arenas, pools and accounts.
use bytes::Bytes;
use kotoconn::pool::{class_of, Pool};
use kotoconn::reassembly::Limits;
use kotoconn::storage::{charge, PacketArena, BLOCK};
use kotoconn::tcp_storage::{Storage, MAX_PARTS};
use kotoconn::transmit::Transmit;
use kotoconn::wire::{IpAddress, SocketAddress};

fn storage(tx: bool) -> Storage {
    Storage::new(128 * 1024, tx)
}

#[test]
fn receive_views_keep_the_frame_alive_through_overlaps_and_consumption() {
    let mut rx = storage(false);
    let source = Bytes::copy_from_slice(b"headerabcdefghij");
    let pointer = source.as_ptr();
    rx.write_view(0, source.slice(6..));
    drop(source);
    rx.enqueue_unallocated(10);
    let bytes = rx.take().unwrap();
    assert_eq!(bytes.as_ptr() as usize, pointer as usize + 6);
    assert_eq!(bytes, b"abcdefghij"[..]);
    rx.write_unallocated(0, b"next");
    rx.enqueue_unallocated(4);
    assert_eq!(rx.take().unwrap(), b"next"[..]);
    assert_eq!(bytes, b"abcdefghij"[..]);
}

#[test]
fn sparse_receive_preserves_overlaps_and_holes_after_consumption() {
    let mut rx = storage(false);
    rx.write_unallocated(10, b"klmnop");
    rx.write_unallocated(0, b"abcdefghij");
    rx.write_unallocated(8, b"IJKLM");
    rx.enqueue_unallocated(16);
    let mut result = Vec::new();
    while let Some(bytes) = rx.take() {
        result.extend_from_slice(&bytes);
    }
    assert_eq!(result, b"abcdefghIJKLMnop");

    // A far-away fragment allocates only its own payload, not the hole.
    rx.write_unallocated(65536, b"tail");
    assert_eq!(rx.layout().iter().map(|block| block.1).sum::<usize>(), 4);
    rx.write_unallocated(0, b"next");
    rx.enqueue_unallocated(4);
    assert_eq!(rx.take().unwrap(), b"next"[..]);
    assert_eq!(rx.layout()[0].0, 65532);
}

#[test]
fn wire_segments_cross_application_blocks_without_shortening() {
    let mut tx = storage(true);
    tx.push(Bytes::from(vec![1; 8192]));
    tx.push(Bytes::from(vec![2; 8192]));
    let segment = tx.get_segment(8000, 1460);
    assert_eq!(segment.len(), 1460);
    assert_eq!(&segment[..192], &[1; 192]);
    assert_eq!(&segment[192..], &[2; 1268]);
    assert_eq!(tx.get_allocated(8000, 1460), &[1; 192]);
}

#[test]
fn immutable_transmit_blocks_survive_partial_ack_without_copying() {
    let mut tx = storage(true);
    let bytes = Bytes::copy_from_slice(b"abcdefgh");
    let pointer = bytes.as_ptr();
    tx.hold(bytes.len());
    tx.push(bytes);
    assert_eq!(tx.get_allocated(0, 8).as_ptr(), pointer);
    assert_eq!(tx.get_allocated(2, 4), b"cdef");
    assert_eq!(tx.accounts().outstanding, 8);
    tx.dequeue_allocated(3);
    assert_eq!(tx.get_allocated(0, 8), b"defgh");
    assert_eq!(tx.accounts().outstanding, 5);
    tx.dequeue_allocated(5);
    assert!(tx.layout().is_empty());
    assert_eq!(tx.accounts().released, 8);
}

#[test]
fn small_packets_share_blocks_and_survive_growth_and_producer_drop() {
    let mut arena = PacketArena::default();
    let packets: Vec<Bytes> =
        (0..1024).map(|index| arena.encode(vec![(index % 251) as u8; 40])).collect();
    let blocks = 1 + packets
        .windows(2)
        .filter(|pair| pair[1].as_ptr() as usize != pair[0].as_ptr() as usize + pair[0].len())
        .count();
    assert_eq!(blocks, (1024usize).div_ceil(BLOCK / 40));
    let large = arena.encode(vec![255; 65535]);
    drop(arena);
    for (index, packet) in packets.into_iter().enumerate() {
        assert_eq!(packet.as_ref(), &[((index % 251) as u8); 40]);
    }
    assert!(large.iter().all(|byte| *byte == 255));
}

#[test]
fn pool_reuses_storage_only_after_last_view_is_dropped() {
    let mut pool = Pool::new();
    let bytes = pool.copy(&[7; 1000]);
    let ptr = bytes.bytes.as_ptr();
    {
        let view = &bytes.bytes[123..456];
        assert_eq!(pool.count(10), 0);
        assert_eq!(view, &[7; 333][..]);
    }
    assert!(pool.give(bytes));
    assert_eq!(pool.count(10), 1);
    let reused = pool.copy(&[9; 1000]);
    assert_eq!(reused.bytes.as_ptr(), ptr);
    assert_eq!(reused.bytes, [9; 1000][..]);
    assert!(pool.give(reused));
    pool.trim();
    assert_eq!(pool.count(10), 0);
}

#[test]
fn a_block_is_filled_in_place() {
    let mut pool = Pool::new();
    let (sum, block) = pool.encode(300, |mut bytes| {
        assert_eq!(bytes.len(), 300);
        bytes.fill(3);
        (bytes.iter().map(|byte| u32::from(*byte)).sum::<u32>(), bytes)
    });
    assert_eq!((sum, block.class), (900, 9));
    assert_eq!(block.bytes, vec![3; 300]);
    assert!(pool.give(block));
    let shorter = pool.fill(260, |mut bytes| {
        bytes[0] = 7;
        ((), bytes)
    });
    assert_eq!((shorter.bytes.len(), shorter.bytes[0], pool.count(9)), (260, 7, 0));
}

#[test]
fn a_class_keeps_a_bounded_number_of_blocks() {
    let mut pool = Pool::new();
    let blocks: Vec<_> = (0..40).map(|_| pool.copy(&[1; 300])).collect();
    let kept = blocks.into_iter().filter(|_| true).map(|block| pool.give(block));
    assert_eq!(kept.filter(|kept| *kept).count(), 32);
    assert_eq!(pool.count(9), 32);
    for (length, class) in [(0, 8), (256, 8), (257, 9), (1000, 10), (65535, 16), (65536, 16)] {
        assert_eq!(class_of(length), (class, 1 << class));
    }
}

#[test]
fn windows_follow_the_allowance_and_what_is_held() {
    let mut rx = storage(false);
    assert_eq!(rx.window(), 128 * 1024);
    assert_eq!(rx.window_shift(), Some(7));
    assert_eq!(rx.enqueue_slice(&[1; 1000]), 1000);
    rx.hold(24);
    assert_eq!(rx.window(), 128 * 1024 - 1024);
    rx.set_target(1000);
    assert_eq!(rx.window(), 0);
    assert_eq!(rx.enqueue_slice(&[1; 10]), 0);
    assert_eq!(rx.capacity(), 1000);
    rx.settle(24);
    assert_eq!(rx.accounts().outstanding, 0);
    assert_eq!(rx.dequeue_slice(600), [1; 600]);
    assert_eq!(rx.len(), 400);
    assert_eq!(rx.window(), 600);
    rx.set_target(1 << 20);
    assert_eq!(rx.enqueue_slice(&vec![2; 70000]), 65536);

    let mut tx = storage(true);
    tx.hold(5000);
    assert_eq!(tx.window(), 128 * 1024 - 5000);
    tx.push(Bytes::from(vec![1; 3000]));
    assert_eq!(tx.window(), 128 * 1024 - 5000);
    tx.clear();
    assert_eq!((tx.accounts().outstanding, tx.accounts().released), (2000, 3000));
    assert_eq!(tx.len(), 0);
}

#[test]
fn one_write_gathers_a_bounded_number_of_blocks() {
    let mut tx = storage(true);
    tx.hold(1000);
    for index in 0..100u8 {
        tx.push(Bytes::from(vec![index; 10]));
    }
    assert_eq!(tx.segment_len(0, 1000), 10 * MAX_PARTS);
    assert_eq!(tx.segment_len(5, 1000), 10 * MAX_PARTS - 5);
    assert_eq!(tx.segment_len(990, 1000), 10);
    assert_eq!(tx.segment_len(2000, 1000), 0);
    assert_eq!(tx.segment_count(0, 1000), 100);
    assert_eq!(tx.segment_count(5, 15), 2);
    assert_eq!(tx.segment_count(7, 7), 0);
    let parts = tx.segments(5, 25);
    assert_eq!(parts.iter().map(Bytes::len).collect::<Vec<_>>(), [5, 10, 5]);
    assert_eq!(tx.read_allocated(5, 20), [&[0; 5][..], &[1; 10], &[2; 5]].concat());
    assert_eq!(tx.read_allocated(995, 20), [99; 5]);
    assert!(tx.read_allocated(1000, 20).is_empty());
}

#[test]
fn arrival_order_does_not_change_the_stream() {
    let mut straight = storage(false);
    straight.write_unallocated(0, b"first ");
    straight.write_unallocated(6, b"second");
    straight.enqueue_unallocated(12);
    let mut reversed = storage(false);
    reversed.write_unallocated(6, b"second");
    reversed.write_unallocated(0, b"first ");
    reversed.enqueue_unallocated(12);
    assert_eq!(straight.dequeue_slice(100), reversed.dequeue_slice(100));
}

#[test]
fn a_take_stops_at_what_is_in_order() {
    let mut rx = storage(false);
    rx.write_unallocated(0, b"abcdef");
    rx.enqueue_unallocated(2);
    assert_eq!(rx.take().unwrap(), b"ab"[..]);
    assert!(rx.take().is_none());
    rx.enqueue_unallocated(4);
    assert_eq!(rx.take().unwrap(), b"cdef"[..]);
}

#[test]
fn packets_are_charged_for_the_blocks_they_may_pin() {
    assert_eq!(charge(0), 0);
    assert_eq!(charge(40), 80);
    assert_eq!(charge(8192), 16384);
    assert_eq!(charge(8193), 8193);
    let end = SocketAddress::new(IpAddress::V4(1), 1);
    assert_eq!(Transmit::Packet(Bytes::from(vec![0; 40])).size(), 80);
    assert_eq!(
        Transmit::Datagram { source: end, destination: end, payload: Bytes::from(vec![0; 40]) }
            .size(),
        88
    );
    assert_eq!(
        Transmit::TcpGso {
            packet: Bytes::from(vec![0; 60]),
            payload: vec![Bytes::from(vec![0; 5000]), Bytes::from(vec![0; 5000])],
            segment_size: 1200,
        }
        .size(),
        10060 + 64
    );
}

#[test]
fn accounts_refuse_growth_beyond_the_allowance_only() {
    let mut limits = Limits::new(100);
    let mut lease = limits.reserve(60).unwrap();
    assert!(limits.reserve(41).is_none());
    assert!(!limits.resize(&mut lease, 101));
    assert!(limits.resize(&mut lease, 100));
    limits.set_target(10);
    assert!(limits.resize(&mut lease, 50));
    assert!(limits.reserve(0).is_some());
    assert!(!limits.resize(&mut lease, 51));
    limits.complete(&lease);
    limits.release(lease);
    assert_eq!((limits.used, limits.take_completed(), limits.completed), (0, 50, 0));
    assert!(limits.reserve(usize::MAX).is_none());
}
