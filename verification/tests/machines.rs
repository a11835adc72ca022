//! The decisions of workers, connections, transfers and the endpoint itself.
use bytes::Bytes;
use crossbeam_queue::SegQueue;
use kotoconn::decoder::Decoder;
use kotoconn::device::{Device, EGRESS};
use kotoconn::endpoint::{
    copies_out, plan, Action, Failure, Notice, Sent, SetupError, Supervisor, Verdict,
};
use kotoconn::linux::{check_addresses, check_options, BindError, TunAddress};
use kotoconn::packet::Flow;
use kotoconn::reassembly::Limits;
use kotoconn::tcp::{
    abandons, draw_initial_sequence, follows, initial_sequence, may_hand_over, window_target,
    write_bytes, write_chunk, Connection, Dispatched, PollAt, Read, ReadChunk, Reader, Signals,
    Socket, State, Transfer, Wakeup, Write, HANDSHAKE_TIMEOUT, MAX_WINDOW,
};
use kotoconn::exchange::{accept, acknowledge, deliver, refresh, supersede, Moved};
use kotoconn::tcp_direct::{
    Action as DirectAction, Called, Direct, Phase as DirectPhase, Seen as DirectSeen,
};
use kotoconn::tcp_storage::Storage;
use kotoconn::transmit::Transmit;
use kotoconn::turn::{Action as Step, Phase, Seen, Turn};
use kotoconn::udp::Encoder;
use kotoconn::udp_direct::{
    Action as UdpAction, Admitted, Datagram, Direct as UdpDirect, Offered, Phase as UdpPhase,
    Received, Seen as UdpSeen,
};
use kotoconn::wire::{IpAddress, SocketAddress, TcpControl, TCP};
use kotoconn::worker::{
    datagrams, idle_until, owner, tick, Disposal, Drive, Event, Examined, Progress, Ready, Response,
    Statistics, Worker,
};
use std::collections::VecDeque;

fn v4(host: u32, port: u16) -> SocketAddress {
    SocketAddress::new(IpAddress::V4(0x0a00_0000 + host), port)
}

fn flow(port: u16) -> Flow {
    Flow { source: v4(2, port), destination: v4(1, 443) }
}

#[test]
fn a_plan_keeps_the_order_and_groups_equal_datagrams() {
    let (a, b) = (v4(1, 53), v4(2, 1000));
    let mut items = VecDeque::new();
    let datagram = |byte: u8, size: usize| Transmit::Datagram {
        source: a,
        destination: b,
        payload: Bytes::from(vec![byte; size]),
    };
    items.push_back(Transmit::Packet(Bytes::from(vec![1; 40])));
    items.push_back(Transmit::Packet(Bytes::from(vec![2; 40])));
    items.push_back(datagram(3, 500));
    items.push_back(datagram(4, 500));
    items.push_back(datagram(5, 400));
    items.push_back(datagram(6, 3000));
    items.push_back(datagram(7, 0));
    items.push_back(Transmit::TcpGso {
        packet: Bytes::from(vec![8; 40]),
        payload: vec![Bytes::from(vec![9; 10])],
        segment_size: 5,
    });
    let mut encoder = Encoder::new(1280);
    let actions = plan(&mut encoder, items, true);
    assert_eq!(actions.len(), 5);
    let mut sent = Sent::new();
    for action in &actions {
        sent.record(action);
    }
    let Action::Batch(first) = &actions[0] else { panic!("batch") };
    assert_eq!(first.iter().map(|p| p[0]).collect::<Vec<_>>(), [1, 2]);
    let Action::Udp { header, parts, size } = &actions[1] else { panic!("aggregate") };
    assert_eq!((header.len(), parts.len(), *size), (28, 2, 500));
    assert_eq!((parts[0][0], parts[1][0]), (3, 4));
    let Action::Udp { parts, size, .. } = &actions[2] else { panic!("aggregate") };
    assert_eq!((parts.len(), *size, parts[0][0]), (1, 400, 5));
    let Action::Batch(frames) = &actions[3] else { panic!("batch") };
    // Three fragments and an empty datagram.
    assert_eq!(frames.len(), 4);
    let mut limits = Limits::new(100_000);
    let mut decoder = Decoder::new();
    let mut payloads = Vec::new();
    for frame in frames {
        if let Some(packet) = decoder.decode(&mut limits, frame, 0) {
            payloads.push(packet.udp().unwrap().1.to_vec());
        }
    }
    assert_eq!(payloads, [vec![6; 3000], vec![]]);
    let Action::Tcp { packet, payload, segment_size } = &actions[4] else { panic!("tcp") };
    assert_eq!((packet.len(), payload.len(), *segment_size), (40, 1, 5));
    assert_eq!(sent.packets, 2 + 2 + 1 + 4 + 1);
    let frame_bytes: u64 = frames.iter().map(|f| f.len() as u64).sum();
    assert_eq!(sent.bytes, 80 + 2 * 528 + 428 + frame_bytes + 50);
}

#[test]
fn aggregates_are_bounded_and_need_the_device() {
    let (a, b) = (v4(1, 53), v4(2, 1000));
    let items = |count: usize, size: usize| -> VecDeque<Transmit> {
        (0..count)
            .map(|_| Transmit::Datagram {
                source: a,
                destination: b,
                payload: Bytes::from(vec![0; size]),
            })
            .collect()
    };
    let groups = |actions: &[Action]| -> Vec<usize> {
        actions
            .iter()
            .map(|action| match action {
                Action::Udp { parts, .. } => parts.len(),
                Action::Batch(frames) => 1000 + frames.len(),
                Action::Tcp { .. } => 0,
            })
            .collect()
    };
    let mut encoder = Encoder::new(1500);
    assert_eq!(groups(&plan(&mut encoder, items(70, 100), true)), [64, 6]);
    assert_eq!(groups(&plan(&mut encoder, items(50, 1472), true)), [44, 6]);
    assert_eq!(groups(&plan(&mut encoder, items(3, 1473), true)), [1006]);
    assert_eq!(groups(&plan(&mut encoder, items(3, 100), false)), [1003]);
    assert!(plan(&mut encoder, VecDeque::new(), true).is_empty());
    // A datagram without a form on the wire leaves no trace.
    let mut lost = items(1, 10);
    lost.push_back(Transmit::Datagram {
        source: SocketAddress::new(IpAddress::V6(1), 1),
        destination: b,
        payload: Bytes::new(),
    });
    assert_eq!(groups(&plan(&mut encoder, lost, false)), [1001]);
    // It ends an aggregate all the same, as any item does that cannot join it.
    let mut apart = items(2, 10);
    apart.push_back(Transmit::Datagram {
        source: SocketAddress::new(IpAddress::V6(1), 1),
        destination: b,
        payload: Bytes::from(vec![0; 10]),
    });
    apart.append(&mut items(3, 10));
    apart.append(&mut items(1, 11));
    assert_eq!(groups(&plan(&mut encoder, apart, true)), [2, 3, 1]);
}

#[test]
fn an_endpoint_stops_after_all_workers_have_drained() {
    assert_eq!(Supervisor::new(1, 1279), Err(SetupError::Mtu));
    assert_eq!(Supervisor::new(1, 65536), Err(SetupError::Mtu));
    assert_eq!(Supervisor::new(0, 1280), Err(SetupError::NoQueue));
    assert_eq!(SetupError::Mtu.message(), "TUN MTU must be between 1280 and 65535");
    assert_eq!(SetupError::NoQueue.message(), "TUN needs at least one queue");
    let mut supervisor = Supervisor::new(2, 1500).unwrap();
    assert_eq!(supervisor.on(Notice::Drained), Verdict::Wait);
    assert_eq!(
        Supervisor::new(1, 1500).unwrap().on(Notice::WorkerStopped),
        Verdict::Fail(Failure::WorkerStoppedEarly)
    );
    assert_eq!(
        Supervisor::new(1, 1500).unwrap().on(Notice::NoWorker),
        Verdict::Fail(Failure::NoWorkers)
    );
    assert_eq!(supervisor.on(Notice::Drained), Verdict::StopWorkers);
    assert_eq!(supervisor.on(Notice::WorkerStopped), Verdict::Wait);
    assert_eq!(supervisor.on(Notice::WorkerFailed), Verdict::Fail(Failure::WorkerFailed));
    assert_eq!(supervisor.on(Notice::NoWorker), Verdict::Finish);
    assert_eq!(supervisor.on(Notice::Cancelled), Verdict::Finish);
    assert_eq!(Failure::NoWorkers.message(), "TUN has no workers");
    assert_eq!(Failure::WorkerFailed.message(), "TUN worker failed");
    assert_eq!(Failure::WorkerStoppedEarly.message(), "TUN worker stopped before shutdown");
    assert!(copies_out(16392, 65575));
    assert!(!copies_out(16393, 65575));
    assert!(copies_out(0, 4));
    assert!(!copies_out(1, 4));
}

#[test]
fn a_blocked_turn_is_replaced_by_the_next_and_released_on_close() {
    let mut worker = Worker::new();
    let f = flow(1000);
    let segment =
        |control, acknowledges| Examined::Tcp { flow: f, control, acknowledges, sequence: 100 };
    let id = Ready { flow: f, generation: 1 };
    assert_eq!(worker.packet(segment(TcpControl::Plain, false), true, false, None), Disposal::Reject);
    assert_eq!(worker.packet(segment(TcpControl::Syn, true), true, false, None), Disposal::Reject);
    assert_eq!(
        worker.packet(segment(TcpControl::Syn, false), true, false, None),
        Disposal::Tcp { id, new: true }
    );
    assert_eq!(
        worker.packet(segment(TcpControl::Plain, true), true, false, None),
        Disposal::Tcp { id, new: false }
    );
    assert_eq!(worker.drive(id), Drive::Tcp);
    assert!(!worker.settle_tcp(id, Progress::Blocked(512)));
    assert_eq!(worker.first_blocked(), Some((id, 512)));
    // Input supersedes the wait; the turn then waits for less.
    assert_eq!(worker.drive(id), Drive::Tcp);
    assert_eq!(worker.first_blocked(), None);
    assert!(!worker.settle_tcp(id, Progress::Blocked(80)));
    assert_eq!(worker.first_blocked(), Some((id, 80)));
    assert_eq!(worker.drive(id), Drive::Tcp);
    assert!(!worker.settle_tcp(id, Progress::Closed));
    assert_eq!(worker.first_blocked(), None);
    assert_eq!(worker.drive(id), Drive::Gone);
    let id2 = Ready { flow: f, generation: 2 };
    assert_eq!(
        worker.packet(segment(TcpControl::Syn, false), true, false, None),
        Disposal::Tcp { id: id2, new: true }
    );
    assert_eq!(worker.drive(id), Drive::Gone);
}

#[test]
fn timers_come_due_in_order_and_are_taken_off() {
    let mut worker = Worker::new();
    let mut ids = Vec::new();
    for (index, at) in [30u64, 10, 20].into_iter().enumerate() {
        let f = flow(2000 + index as u16);
        let syn = Examined::Tcp { flow: f, control: TcpControl::Syn, acknowledges: false, sequence: 100 };
        let Disposal::Tcp { id, new: true } = worker.packet(syn, true, false, None) else {
            panic!("new connection")
        };
        assert_eq!(worker.drive(id), Drive::Tcp);
        assert!(!worker.settle_tcp(id, Progress::Idle(Some(at))));
        ids.push(id);
    }
    assert_eq!(worker.deadline(), Some(10));
    assert_eq!(worker.on(Event::Timer), Response::RunTcp(ids[1]));
    assert!(worker.settle_tcp(ids[1], Progress::Again));
    assert_eq!(worker.on(Event::Timer), Response::RunTcp(ids[2]));
    assert!(!worker.settle_tcp(ids[2], Progress::Idle(None)));
    assert_eq!(worker.deadline(), Some(30));
    assert_eq!(worker.drive(ids[0]), Drive::Tcp);
    assert!(!worker.settle_tcp(ids[0], Progress::Closed));
    assert_eq!(worker.deadline(), None);
}

#[test]
fn associations_are_replaced_transferred_and_stopped() {
    let mut worker = Worker::new();
    let (f, g) = (flow(1), flow(2));
    let datagram = Examined::Udp { flow: f };
    let id = Ready { flow: f, generation: 1 };
    assert_eq!(worker.packet(datagram, true, false, None), Disposal::Udp { id, new: true });
    assert_eq!(worker.packet(datagram, true, false, None), Disposal::Udp { id, new: false });
    assert_eq!(worker.drive(id), Drive::Gone);
    assert_eq!(worker.on(Event::Transfer { id, closed: true }), Response::Wait);
    assert_eq!(worker.on(Event::Transfer { id, closed: false }), Response::Take(id));
    assert_eq!(worker.drive(id), Drive::Udp);
    worker.settle_udp(id, Progress::Blocked(48));
    assert_eq!(worker.first_blocked(), Some((id, 48)));
    // The association has ended; a new one takes its place and its wait is gone.
    let next = Ready { flow: f, generation: 2 };
    assert_eq!(worker.packet(datagram, true, true, None), Disposal::Udp { id: next, new: true });
    assert_eq!(worker.first_blocked(), None);
    assert_eq!(worker.on(Event::Completed(id)), Response::Wait);
    assert_eq!(worker.packet(datagram, true, false, None), Disposal::Udp { id: next, new: false });
    assert_eq!(
        worker.on(Event::Transfer { id: next, closed: false }),
        Response::Take(next)
    );
    assert_eq!(worker.drive(next), Drive::Udp);
    worker.settle_udp(next, Progress::Blocked(1));
    let syn = Examined::Tcp { flow: g, control: TcpControl::Syn, acknowledges: false, sequence: 100 };
    let tcp = Ready { flow: g, generation: 3 };
    assert_eq!(worker.packet(syn, true, false, None), Disposal::Tcp { id: tcp, new: true });
    assert_eq!(worker.drive(tcp), Drive::Tcp);
    worker.settle_tcp(tcp, Progress::Blocked(2));
    assert!(!worker.report_drained());
    assert_eq!(worker.stop(), [tcp]);
    assert_eq!(worker.first_blocked(), Some((tcp, 2)));
    assert!(!worker.report_drained());
    assert_eq!(worker.drive(tcp), Drive::Tcp);
    worker.settle_tcp(tcp, Progress::Closed);
    assert!(worker.report_drained());
    assert!(!worker.report_drained());
}

#[test]
fn packets_are_examined_before_they_reach_a_flow() {
    let f = flow(9);
    let mut frames = Encoder::new(1280).encode(f.source, f.destination, b"hi").unwrap();
    let frame = frames.remove(0);
    let mut limits = Limits::new(100_000);
    let mut worker = Worker::new();
    let packet = Decoder::new().decode(&mut limits, &frame, 0).unwrap();
    assert_eq!(worker.examine(&packet, false), Examined::Udp { flow: f });
    let mut corrupt = frame.to_vec();
    corrupt[28] ^= 1;
    let packet = Decoder::new().decode(&mut limits, &corrupt, 0).unwrap();
    assert_eq!(worker.examine(&packet, false), Examined::Invalid);
    assert_eq!(worker.examine(&packet, true), Examined::Udp { flow: f });
    assert!(worker.stop().is_empty());
    assert_eq!(worker.examine(&packet, true), Examined::Other);
    let mut tcp = packet.into_owned();
    tcp.ip.protocol = TCP;
    assert_eq!(worker.examine(&tcp, true), Examined::Invalid);
}

#[test]
fn packets_and_events_find_their_flows() {
    let mut worker = Worker::new();
    let f = flow(1);
    let syn = Examined::Tcp { flow: f, control: TcpControl::Syn, acknowledges: false, sequence: 100 };
    let ack = Examined::Tcp { flow: f, control: TcpControl::Plain, acknowledges: true, sequence: 101 };
    let udp = Examined::Udp { flow: f };
    assert_eq!(worker.packet(Examined::Invalid, true, false, None), Disposal::Drop);
    assert_eq!(worker.packet(Examined::Other, true, false, None), Disposal::Ignore);
    assert_eq!(worker.packet(syn, false, false, None), Disposal::Forward);
    assert_eq!(worker.packet(ack, true, false, None), Disposal::Reject);
    let tcp_id = Ready { flow: f, generation: 1 };
    assert_eq!(worker.packet(syn, true, false, None), Disposal::Tcp { id: tcp_id, new: true });
    assert_eq!(worker.packet(ack, true, false, None), Disposal::Tcp { id: tcp_id, new: false });
    let udp_id = Ready { flow: f, generation: 2 };
    assert_eq!(worker.packet(udp, false, false, None), Disposal::Forward);
    assert_eq!(worker.packet(udp, true, false, None), Disposal::Udp { id: udp_id, new: true });
    assert_eq!(worker.packet(udp, true, false, None), Disposal::Udp { id: udp_id, new: false });

    assert_eq!(worker.on(Event::Timer), Response::Wait);
    assert_eq!(worker.on(Event::Writable), Response::Wait);
    assert_eq!(worker.on(Event::Runnable(udp_id)), Response::Wait);
    assert_eq!(
        worker.on(Event::Transfer { id: udp_id, closed: false }),
        Response::Take(udp_id)
    );
    assert_eq!(worker.on(Event::Runnable(udp_id)), Response::RunUdp(udp_id));
    worker.settle_udp(udp_id, Progress::Blocked(10));
    assert_eq!(worker.on(Event::Writable), Response::RunUdp(udp_id));
    assert_eq!(worker.on(Event::Runnable(tcp_id)), Response::RunTcp(tcp_id));
    worker.settle_tcp(tcp_id, Progress::Idle(Some(7)));
    assert_eq!(worker.on(Event::Timer), Response::RunTcp(tcp_id));
    assert_eq!(worker.on(Event::Completed(udp_id)), Response::Wait);
    assert_eq!(worker.on(Event::Runnable(udp_id)), Response::Wait);
    worker.stop();
    assert_eq!(worker.packet(udp, true, false, None), Disposal::Ignore);
    let other = Examined::Tcp { flow: flow(2), control: TcpControl::Syn, acknowledges: false, sequence: 100 };
    assert_eq!(worker.packet(other, true, false, None), Disposal::Reject);
}

/// A connection that has closed in both directions, with bytes that nobody has read.
fn closed_connection(tail: &[u8]) -> (Connection, Storage, Reader) {
    let mut connection = Connection::new(0);
    assert!(!connection.input(State::Listen, State::SynReceived, TcpControl::Syn));
    assert!(!connection.input(State::SynReceived, State::Established, TcpControl::Plain));
    assert!(connection.stream_turn(State::Established).deliver);
    let mut storage = Storage::new(128 * 1024, false);
    storage.write_unallocated(0, tail);
    storage.enqueue_unallocated(tail.len());
    assert!(!connection.input(State::FinWait2, State::TimeWait, TcpControl::Fin));
    (connection, storage, Reader::new())
}

#[test]
fn tcp_reuses_time_wait_without_losing_old_eof_or_accepting_old_syn() {
    let v6 = |host: u128, port| SocketAddress::new(IpAddress::V6((0xfd00 << 112) | host), port);
    for f in [flow(12345), Flow { source: v6(2, 12345), destination: v6(1, 443) }] {
        let mut worker = Worker::new();
        let syn = |sequence| Examined::Tcp {
            flow: f,
            control: TcpControl::Syn,
            acknowledges: false,
            sequence,
        };
        let old = Ready { flow: f, generation: 1 };
        let disposal = worker.packet(syn(100), true, false, None);
        assert_eq!(disposal, Disposal::Tcp { id: old, new: true });
        assert_eq!(worker.on(Event::Runnable(old)), Response::RunTcp(old));
        assert!(!worker.settle_tcp(old, Progress::Idle(Some(5000))));
        assert_eq!(worker.deadline(), Some(5000));

        // The peer's end with unread data, a duplicate of its first request, and a
        // new request come together.
        let (mut connection, mut storage, mut reader) = closed_connection(b"tail");
        let next = 101 + 4 + 1;
        let fin = 7000;
        let waiting = connection.waiting_for(State::TimeWait, next);
        assert_eq!(waiting, Some(next));
        assert_eq!(connection.waiting_for(State::CloseWait, next), None);
        let duplicate = worker.packet(syn(100), true, false, waiting);
        assert_eq!(duplicate, Disposal::Tcp { id: old, new: false });
        let again = worker.packet(syn(next), true, false, waiting);
        assert_eq!(again, Disposal::Tcp { id: old, new: false });
        let new = Ready { flow: f, generation: 2 };
        assert_eq!(
            worker.packet(syn(65536), true, false, None),
            Disposal::Tcp { id: old, new: false }
        );
        assert_eq!(
            worker.packet(syn(65536), true, false, waiting),
            Disposal::Tcp { id: new, new: true }
        );
        assert_eq!(worker.deadline(), None);

        // The old stream keeps its tail and its end; the new numbers follow the old.
        let ended = supersede(&mut connection, &mut storage, &mut reader, fin + 1);
        assert_eq!((ended.signals.eof, ended.signals.reset), (true, false));
        assert!(!connection.lost_on_drop());
        assert!(follows(draw_initial_sequence(Some(ended.after)), fin));
        let Read::Bytes(tail) = reader.read(100, ended.signals.eof, ended.signals.reset) else {
            panic!("tail")
        };
        assert_eq!(tail, b"tail");
        assert!(matches!(reader.read(100, true, false), Read::End));

        // The old stream's last event does not affect the new incarnation.
        assert_eq!(worker.on(Event::Runnable(old)), Response::Wait);
        assert_eq!(worker.on(Event::Runnable(new)), Response::RunTcp(new));
    }
}

#[test]
fn a_request_that_takes_a_place_takes_its_waits_away() {
    let mut worker = Worker::new();
    let syn = |port, sequence| Examined::Tcp {
        flow: flow(port),
        control: TcpControl::Syn,
        acknowledges: false,
        sequence,
    };
    for port in [1, 2] {
        worker.packet(syn(port, 100), true, false, None);
        let id = Ready { flow: flow(port), generation: port.into() };
        assert_eq!(worker.on(Event::Runnable(id)), Response::RunTcp(id));
        worker.settle_tcp(id, Progress::Blocked(40));
    }
    // Numbers run around their end.
    let disposal = worker.packet(syn(1, 5), true, false, Some(u32::MAX - 5));
    let new = Ready { flow: flow(1), generation: 3 };
    assert_eq!(disposal, Disposal::Tcp { id: new, new: true });
    let other = Ready { flow: flow(2), generation: 2 };
    assert_eq!(worker.first_blocked(), Some((other, 40)));
    // A worker that stops opens nothing in any place.
    worker.stop();
    let disposal = worker.packet(syn(2, 500), true, false, Some(200));
    assert_eq!(disposal, Disposal::Tcp { id: other, new: false });
}

#[test]
fn first_numbers_follow_those_of_the_connection_before() {
    assert_eq!(initial_sequence(77, None), 77);
    assert_eq!(initial_sequence(0x4000_0005, Some(10)), 16);
    assert_eq!(initial_sequence(u32::MAX, Some(u32::MAX)), 0x3fff_ffff);
    assert!(follows(0, u32::MAX) && !follows(u32::MAX, 0) && !follows(5, 5));
    assert!(follows(0x7fff_ffff, 0) && !follows(0x8000_0000, 0));
}

#[test]
fn payloads_are_cut_into_their_datagrams() {
    assert_eq!(datagrams(0, None), [(0, 0)]);
    assert_eq!(datagrams(0, Some(5)), [(0, 0)]);
    assert_eq!(datagrams(7, None), [(0, 7)]);
    assert_eq!(datagrams(7, Some(3)), [(0, 3), (3, 3), (6, 1)]);
    assert_eq!(datagrams(6, Some(3)), [(0, 3), (3, 3)]);
    assert_eq!(datagrams(2, Some(3)), [(0, 2)]);
    assert_eq!(owner(10, 3), 1);
    assert_eq!(tick(0), (1, false));
    assert_eq!(tick(63), (0, true));
    assert_eq!(idle_until(100, 30, 129), Some(130));
    assert_eq!(idle_until(100, 30, 130), None);
    let mut statistics = Statistics::new();
    statistics.received(100);
    statistics.received(20);
    statistics.forwarded(true);
    statistics.forwarded(false);
    statistics.processed();
    assert!(statistics.offered(true, false));
    assert!(statistics.offered(true, true));
    assert!(!statistics.offered(false, false));
    assert_eq!((statistics.received_packets, statistics.received_bytes), (2, 120));
    assert_eq!((statistics.forwarded_packets, statistics.forwarding_drops), (1, 1));
    assert_eq!((statistics.processed_packets, statistics.capacity_drops), (1, 1));
}

fn seen(state: State) -> Seen {
    Seen {
        now: 0,
        stopping: false,
        abandoned: false,
        offered: false,
        socket: Socket { state, can_recv: false, may_recv: true },
        finished: false,
        outgoing_empty: true,
        failed: false,
        transfer: Transfer::Pending,
        dispatched: Dispatched::Nothing,
        poll_at: PollAt::Ingress,
    }
}

/// Runs a turn to its end under what is seen, and lists what it did.
fn run(connection: &mut Connection, seen: &Seen) -> (Vec<Step>, Progress) {
    let mut turn = Turn::new();
    let mut steps = Vec::new();
    loop {
        match connection.poll(&mut turn, seen) {
            Step::Proceed => {}
            Step::End(progress) => return (steps, progress),
            step => steps.push(step),
        }
    }
}

#[test]
fn a_handshake_ends_in_a_stream_or_in_time() {
    let mut connection = Connection::new(0);
    let quiet = Signals { eof: false, reset: false };
    assert_eq!(
        run(&mut connection, &seen(State::SynReceived)),
        (
            vec![Step::Signal(quiet), Step::Dispatch],
            Progress::Idle(Some(HANDSHAKE_TIMEOUT))
        )
    );
    let late = Seen { now: HANDSHAKE_TIMEOUT, ..seen(State::SynReceived) };
    assert_eq!(run(&mut connection, &late).0[0], Step::Abort);
    let sooner = Seen { poll_at: PollAt::Time(5), ..seen(State::SynReceived) };
    assert_eq!(run(&mut connection, &sooner).1, Progress::Idle(Some(5)));
    assert_eq!(
        run(&mut connection, &seen(State::Established)),
        (
            vec![Step::Deliver, Step::MoveOutgoing, Step::Signal(quiet), Step::Dispatch],
            Progress::Idle(None)
        )
    );
    assert!(!connection.waiting);
    assert_eq!(run(&mut connection, &late).0, vec![Step::Signal(quiet), Step::Dispatch]);
    // Nobody waits for the stream any more.
    let mut abandoned = Connection::new(0);
    let refused = Seen { failed: true, ..seen(State::Established) };
    assert_eq!(run(&mut abandoned, &refused).0[..3], [
        Step::Deliver,
        Step::Abort,
        Step::MoveOutgoing
    ]);
}

#[test]
fn turns_close_block_and_repeat() {
    let mut connection = Connection::new(0);
    run(&mut connection, &seen(State::Established));
    let finished = Seen { finished: true, ..seen(State::Established) };
    assert!(run(&mut connection, &finished).0.contains(&Step::CloseSend));
    let receiving = Seen {
        socket: Socket { state: State::Established, can_recv: true, may_recv: true },
        ..seen(State::Established)
    };
    let (steps, progress) = run(&mut connection, &receiving);
    assert!(steps.contains(&Step::MoveIncoming));
    assert_eq!(progress, Progress::Again);
    let full = Seen { dispatched: Dispatched::Full(99), ..seen(State::Established) };
    assert_eq!(run(&mut connection, &full).1, Progress::Blocked(99));
    let gone = Seen { dispatched: Dispatched::Gone, ..seen(State::Established) };
    assert_eq!(run(&mut connection, &gone).1, Progress::Closed);
    let busy = Seen { dispatched: Dispatched::Sent, ..seen(State::Established) };
    let (steps, _) = run(&mut connection, &busy);
    assert_eq!(steps.iter().filter(|step| **step == Step::Dispatch).count(), 32);
    let now = Seen { poll_at: PollAt::Now, ..seen(State::Established) };
    assert_eq!(run(&mut connection, &now).1, Progress::Again);
    let lost = Seen {
        socket: Socket { state: State::Closed, can_recv: false, may_recv: false },
        ..seen(State::Closed)
    };
    let (steps, progress) = run(&mut connection, &lost);
    assert_eq!(steps[0], Step::Signal(Signals { eof: false, reset: true }));
    assert_eq!(progress, Progress::Closed);
    assert!(connection.lost_on_drop());
    // The peer closes, then the last acknowledgment comes.
    assert!(!connection.input(State::LastAck, State::Closed, TcpControl::Plain));
    assert!(connection.closed_normally);
    let (steps, _) = run(&mut connection, &lost);
    assert_eq!(steps[0], Step::Signal(Signals { eof: true, reset: false }));
    assert!(!connection.lost_on_drop());
    let mut waiting = Connection::new(0);
    let stopping = Seen { stopping: true, ..seen(State::TimeWait) };
    assert_eq!(run(&mut waiting, &stopping).1, Progress::Closed);
    assert!(waiting.closed_normally);
}

#[test]
fn a_reset_handshake_does_not_listen_again() {
    let mut connection = Connection::new(0);
    assert!(!connection.input(State::Listen, State::SynReceived, TcpControl::Syn));
    assert!(connection.input(State::SynReceived, State::Listen, TcpControl::Rst));
    assert!(!connection.input(State::LastAck, State::Closed, TcpControl::Rst));
    assert!(!connection.closed_normally);
    assert!(!connection.input(State::FinWait2, State::TimeWait, TcpControl::Fin));
    assert!(connection.closed_normally);
}

#[test]
fn a_transfer_takes_the_streams_place_once() {
    let mut connection = Connection::new(0);
    run(&mut connection, &seen(State::Established));
    let offered = Seen { offered: true, ..seen(State::Established) };
    let (steps, _) = run(&mut connection, &offered);
    assert_eq!(steps, [Step::StartTransfer, Step::PollTransfer, Step::Dispatch]);
    let done = Seen { offered: true, transfer: Transfer::Done, ..seen(State::Established) };
    let (steps, _) = run(&mut connection, &done);
    assert_eq!(
        steps,
        [Step::PollTransfer, Step::FinishTransfer { abort: false }, Step::Dispatch]
    );
    let (steps, _) = run(&mut connection, &offered);
    assert_eq!(steps, [Step::Dispatch]);
    let mut other = Connection::new(0);
    run(&mut other, &seen(State::Established));
    let lost = Seen {
        offered: true,
        transfer: Transfer::Failed,
        ..seen(State::Closed)
    };
    let (steps, _) = run(&mut other, &lost);
    assert_eq!(
        steps[..3],
        [Step::StartTransfer, Step::FailTransfer, Step::FinishTransfer { abort: true }]
    );
    assert_eq!(Turn::new().phase, Phase::Abandon);
    assert_eq!(window_target(5), 5);
    assert_eq!(window_target(MAX_WINDOW + 1), (u16::MAX as usize) << 7);
}

#[test]
fn one_event_is_enough_for_a_turn() {
    let mut wakeup = Wakeup::new();
    assert!(wakeup.wake());
    assert!(!wakeup.wake());
    wakeup.begin_turn();
    assert!(wakeup.wake());
}

#[test]
fn a_reader_gets_the_stream_in_order_and_then_its_end() {
    let mut reader = Reader::new();
    assert!(matches!(reader.read(10, false, false), Read::Pending));
    reader.publish(Bytes::from_static(b"he"));
    reader.publish(Bytes::from_static(b"llo"));
    assert!(matches!(reader.read(10, true, true), Read::Reset));
    let Read::Bytes(bytes) = reader.read(4, true, false) else { panic!("bytes") };
    assert_eq!(bytes, b"hell");
    assert!(!reader.head_empty());
    assert_eq!(reader.take_consumed(), 4);
    let Read::Bytes(bytes) = reader.read(0, true, false) else { panic!("bytes") };
    assert!(bytes.is_empty());
    let ReadChunk::Chunk(chunk) = reader.read_chunk(true, false) else { panic!("chunk") };
    assert_eq!(chunk, b"o"[..]);
    assert!(reader.head_empty());
    assert_eq!(reader.take_consumed(), 0);
    reader.consume_chunk(1);
    assert_eq!(reader.take_consumed(), 1);
    assert!(matches!(reader.read_chunk(false, false), ReadChunk::Pending));
    assert!(matches!(reader.read_chunk(false, true), ReadChunk::Reset));
    assert!(matches!(reader.read(1, true, false), Read::End));
    assert!(matches!(reader.read_chunk(true, false), ReadChunk::End));
}

#[test]
fn blocks_move_in_order_and_are_held_until_they_are_consumed() {
    let mut storage = Storage::new(128 * 1024, false);
    let mut reader = Reader::new();
    let stream: Vec<u8> = (0..100).collect();
    // Blocks of two bytes each, of which one turn moves a bounded number.
    for part in stream.chunks(2) {
        storage.push(Bytes::copy_from_slice(part));
    }
    assert_eq!(deliver(&mut storage, &mut reader), Moved { blocks: 32, bytes: 64 });
    assert_eq!((storage.len(), storage.accounts().outstanding), (36, 64));
    let Read::Bytes(first) = reader.read(70, false, false) else { panic!("bytes") };
    assert_eq!(first, stream[..64]);
    assert_eq!(deliver(&mut storage, &mut reader), Moved { blocks: 18, bytes: 36 });
    assert_eq!(refresh(&mut reader, &mut storage), 64);
    assert_eq!(storage.accounts().outstanding, 36);
    let Read::Bytes(second) = reader.read(70, false, false) else { panic!("bytes") };
    assert_eq!(second, stream[64..]);
    assert_eq!(refresh(&mut reader, &mut storage), 36);
    assert_eq!(refresh(&mut reader, &mut storage), 0);
    assert_eq!(deliver(&mut storage, &mut reader), Moved { blocks: 0, bytes: 0 });

    let mut sending = Storage::new(128 * 1024, true);
    let mut outgoing = SegQueue::new();
    for part in stream.chunks(2) {
        outgoing.push(Bytes::copy_from_slice(part));
    }
    assert_eq!(accept(&mut outgoing, &mut sending), Moved { blocks: 32, bytes: 64 });
    assert_eq!(accept(&mut outgoing, &mut sending), Moved { blocks: 18, bytes: 36 });
    assert_eq!(sending.read_allocated(0, 100), stream);
    assert_eq!(sending.accounts().outstanding, 100);
    let mut used = 100;
    sending.dequeue_allocated(30);
    sending.dequeue_allocated(5);
    assert_eq!((acknowledge(&mut sending, &mut used), used), (35, 65));
    assert_eq!((acknowledge(&mut sending, &mut used), used), (0, 65));
    assert_eq!(sending.accounts().outstanding, 65);
}

#[test]
fn writes_are_bounded_by_the_allowance_and_the_block() {
    assert_eq!(write_bytes(10, false, true, 100, 0), Write::Reset);
    assert_eq!(write_bytes(10, true, false, 100, 0), Write::BrokenPipe);
    assert_eq!(write_bytes(0, false, false, 0, 0), Write::Accept(0));
    assert_eq!(write_bytes(10, false, false, 100, 95), Write::Accept(5));
    assert_eq!(write_bytes(10, false, false, 100, 100), Write::Pending);
    assert_eq!(write_bytes(100_000, false, false, 1 << 20, 0), Write::Accept(65536));
    assert_eq!(write_chunk(100_000, false, false, 1 << 20, 0), Write::Accept(100_000));
    assert_eq!(write_chunk(10, false, false, 5, 5), Write::Pending);
    assert_eq!(write_chunk(10, true, false, 5, 5), Write::BrokenPipe);
    assert_eq!(write_chunk(10, true, true, 5, 5), Write::Reset);
    assert!(!abandons(true, true));
    assert!(abandons(true, false));
    assert!(may_hand_over(true, false, false));
    assert!(!may_hand_over(false, false, false));
}

/// A socket that takes some bytes at a time and has some blocks to give, and the
/// bytes that reach the connection.
struct Other {
    takes: Option<usize>,
    written: Vec<u8>,
    blocks: Vec<Bytes>,
    moved: Vec<u8>,
    actions: Vec<&'static str>,
}

/// Runs a turn of a transfer to its end.
fn run_transfer(
    direct: &mut Direct,
    other: &mut Other,
    published: &mut SegQueue<Bytes>,
    storage: &mut Storage,
    may_recv: bool,
    target: usize,
) -> Transfer {
    let mut phase = DirectPhase::Upload;
    let mut seen = DirectSeen {
        called: Called::Pending,
        accepted: 0,
        more: false,
        may_recv,
        target,
        used: 0,
    };
    loop {
        let offered = storage.len() + published.len();
        seen.more = offered > 0;
        seen.called = Called::Done;
        match direct.poll(&mut phase, &seen, published, storage) {
            DirectAction::Proceed => {}
            DirectAction::Write => {
                let mut offered = Vec::new();
                for index in 0..direct.block_count() {
                    offered.extend_from_slice(direct.block(index));
                }
                let Some(takes) = other.takes else {
                    seen.called = Called::Pending;
                    other.actions.push("wait");
                    let action = direct.poll(&mut phase, &seen, published, storage);
                    assert!(matches!(action, DirectAction::Proceed));
                    continue;
                };
                seen.accepted = offered.len().min(takes);
                other.written.extend_from_slice(&offered[..seen.accepted]);
                other.actions.push("write");
            }
            DirectAction::Shutdown => other.actions.push("shutdown"),
            DirectAction::Flush => other.actions.push("flush"),
            DirectAction::Wake => other.actions.push("wake"),
            DirectAction::CloseSend => other.actions.push("close"),
            DirectAction::Read => {
                other.actions.push("read");
                if other.blocks.is_empty() {
                    seen.called = Called::Pending;
                    let action = direct.poll(&mut phase, &seen, published, storage);
                    assert!(matches!(action, DirectAction::Proceed));
                } else {
                    direct.read(other.blocks.remove(0));
                }
            }
            DirectAction::Move(bytes) => {
                other.actions.push("move");
                seen.used += bytes.len();
                other.moved.extend_from_slice(&bytes);
            }
            DirectAction::End(transfer) => return transfer,
        }
    }
}

fn other(takes: Option<usize>, blocks: &[&'static [u8]]) -> Other {
    Other {
        takes,
        written: Vec::new(),
        blocks: blocks.iter().map(|block| Bytes::from_static(block)).collect(),
        moved: Vec::new(),
        actions: Vec::new(),
    }
}

#[test]
fn a_transfer_preserves_prequeued_bytes_partial_writes_half_close_and_counts() {
    let mut published = SegQueue::new();
    let mut storage = Storage::new(128 * 1024, false);
    for part in [&b"he"[..], b"llo"] {
        published.push(Bytes::copy_from_slice(part));
        storage.hold(part.len());
    }
    storage.write_unallocated(0, b" world");
    storage.enqueue_unallocated(6);
    let mut direct = Direct::new();
    // The socket takes three bytes at a time, and the connection has room for three.
    let mut peer = other(Some(3), &[b"world"]);
    let mut run = |peer: &mut Other| {
        run_transfer(&mut direct, peer, &mut published, &mut storage, false, 3)
    };
    assert_eq!(run(&mut peer), Transfer::Pending);
    assert_eq!((&peer.written[..], &peer.moved[..]), (&b"hel"[..], &b"wor"[..]));
    assert_eq!(peer.actions, ["write", "wake", "read", "move"]);
    for _ in 0..2 {
        assert_eq!(run(&mut peer), Transfer::Pending);
    }
    assert_eq!((&peer.written[..], &peer.moved[..]), (&b"hello wor"[..], &b"world"[..]));
    // The last bytes close the socket's direction; its own end closes the other.
    peer.blocks.push(Bytes::new());
    peer.actions.clear();
    assert_eq!(run(&mut peer), Transfer::Done);
    assert_eq!(peer.actions, ["write", "shutdown", "read", "close"]);
    assert_eq!(peer.written, b"hello world");
    assert!(published.is_empty());
    assert_eq!(storage.accounts().outstanding, 0);
    assert_eq!(direct.finish(false), Some((11, 5)));
    assert_eq!(Direct::new().finish(true), None);
}

#[test]
fn a_transfer_moves_a_bounded_number_of_blocks_each_turn() {
    let mut published = SegQueue::new();
    let mut storage = Storage::new(128 * 1024, false);
    for index in 0..40u8 {
        published.push(Bytes::from(vec![index; 2]));
        storage.hold(2);
    }
    let mut direct = Direct::new();
    let mut peer = other(Some(1000), &[]);
    let progress = run_transfer(&mut direct, &mut peer, &mut published, &mut storage, true, 10);
    assert_eq!((progress, published.len(), peer.written.len()), (Transfer::Pending, 8, 64));
    assert_eq!(peer.actions, ["write", "wake", "read"]);
    run_transfer(&mut direct, &mut peer, &mut published, &mut storage, true, 10);
    assert_eq!((published.len(), peer.written.len()), (0, 80));
    assert_eq!(peer.actions[3..], ["write", "flush", "read"]);

    // A socket that gives without end is left alone after some rounds.
    let mut peer = other(None, &[&b"x"[..]; 40]);
    let progress = run_transfer(&mut direct, &mut peer, &mut published, &mut storage, true, 100);
    assert_eq!((progress, peer.moved.len()), (Transfer::Pending, 32));
    assert_eq!(peer.actions.last(), Some(&"wake"));

    // A write that has to wait does not hold the download up; one that is accepted
    // by nobody fails.
    published.push(Bytes::from_static(b"late"));
    storage.hold(4);
    let mut peer = other(None, &[b"y"]);
    let progress = run_transfer(&mut direct, &mut peer, &mut published, &mut storage, true, 100);
    assert_eq!((progress, &peer.moved[..]), (Transfer::Pending, &b"y"[..]));
    assert_eq!(peer.actions, ["wait", "read", "move", "read"]);
    let mut peer = other(Some(0), &[]);
    let progress = run_transfer(&mut direct, &mut peer, &mut published, &mut storage, true, 100);
    assert_eq!(progress, Transfer::Failed);
    assert_eq!(direct.finish(false), Some((80, 33)));
}

fn reply(byte: u8) -> Datagram {
    Datagram { target: Some(v4(1, 443)), payload: Bytes::from(vec![byte]) }
}

/// A socket that takes some datagrams at a time and has some replies, and a queue
/// to the device that has room for some.
struct Peer {
    takes: usize,
    sent: Vec<u8>,
    replies: Vec<Datagram>,
    room: usize,
    queued: Vec<Transmit>,
}

/// Runs a turn of an association to its end.
fn run_udp(direct: &mut UdpDirect, peer: &mut Peer) -> (Progress, bool) {
    let mut phase = UdpPhase::Offer;
    let mut seen = UdpSeen {
        offered: Offered::Pending,
        admitted: Admitted::Full,
        received: Received::Pending,
    };
    let mut woken = false;
    loop {
        match direct.poll(&mut phase, &seen) {
            UdpAction::Proceed => {}
            UdpAction::Offer(count) => {
                let taken = count.min(peer.takes);
                for index in 0..taken {
                    peer.sent.push(direct.offered(index).payload[0]);
                }
                seen.offered =
                    if taken == 0 { Offered::Pending } else { Offered::Sent(taken) };
            }
            UdpAction::Completed { wake, .. } => woken |= wake,
            UdpAction::Reserve(_) => {
                seen.admitted = if peer.room > 0 { Admitted::Yes } else { Admitted::Full };
            }
            UdpAction::Send(item) => {
                peer.room -= 1;
                peer.queued.push(item);
            }
            UdpAction::Receive => {
                seen.received = if peer.replies.is_empty() {
                    Received::Pending
                } else {
                    direct.add_replies(peer.replies.drain(..).collect());
                    Received::Replies
                };
            }
            UdpAction::End { progress, wake } => return (progress, woken | wake),
        }
    }
}

#[test]
fn replies_wait_under_pressure_and_traffic_goes_on() {
    let f = flow(1000);
    let mut direct = UdpDirect::new(f, VecDeque::new());
    let mut peer = Peer {
        takes: 32,
        sent: Vec::new(),
        replies: vec![
            Datagram { target: Some(v4(1, 443)), payload: Bytes::new() },
            Datagram { target: None, payload: Bytes::from(vec![1]) },
            Datagram {
                target: Some(SocketAddress::new(IpAddress::V6(1), 1)),
                payload: Bytes::from(vec![2]),
            },
            reply(3),
        ],
        room: 0,
        queued: Vec::new(),
    };
    // The device's queue is full: the replies stay, and the other direction runs.
    assert_eq!(run_udp(&mut direct, &mut peer), (Progress::Blocked(48), false));
    assert!(direct.enqueue(reply(9), 1));
    assert_eq!(run_udp(&mut direct, &mut peer), (Progress::Blocked(48), false));
    assert_eq!(peer.sent, [9]);
    peer.room = 1;
    assert_eq!(run_udp(&mut direct, &mut peer), (Progress::Blocked(49), false));
    let Some(Transmit::Datagram { payload, source, destination }) = peer.queued.pop() else {
        panic!("datagram")
    };
    assert!(payload.is_empty());
    assert_eq!((source, destination), (v4(1, 443), f.source));
    peer.room = 1;
    assert_eq!(run_udp(&mut direct, &mut peer), (Progress::Idle(None), false));
    let Some(Transmit::Datagram { payload, .. }) = peer.queued.pop() else {
        panic!("datagram")
    };
    assert_eq!(payload, [3][..]);
    assert!(peer.queued.is_empty());
    // Replies that come and leave in one turn ask for another.
    peer.replies.push(reply(4));
    peer.room = 1;
    assert_eq!(run_udp(&mut direct, &mut peer), (Progress::Idle(None), true));
}

#[test]
fn new_datagrams_follow_those_that_were_queued_across_partial_sends() {
    let mut direct = UdpDirect::new(flow(1000), VecDeque::from(vec![reply(0), reply(1)]));
    assert!(direct.enqueue(reply(2), 1000));
    assert!(direct.enqueue(reply(3), 1000));
    assert!(!direct.enqueue(reply(4), 300));
    let mut peer = Peer {
        takes: 2,
        sent: Vec::new(),
        replies: Vec::new(),
        room: 0,
        queued: Vec::new(),
    };
    assert_eq!(run_udp(&mut direct, &mut peer), (Progress::Idle(None), true));
    assert_eq!(run_udp(&mut direct, &mut peer), (Progress::Idle(None), false));
    assert_eq!(peer.sent, [0, 1, 2, 3]);
    // An empty queue takes a datagram whatever the allowance is.
    assert!(direct.enqueue(reply(5), 0));
    let mut phase = UdpPhase::Offered;
    let mut seen = UdpSeen {
        offered: Offered::Failed,
        admitted: Admitted::Gone,
        received: Received::End,
    };
    let UdpAction::Completed { bytes, wake } = direct.poll(&mut phase, &seen) else {
        panic!("completed")
    };
    assert_eq!((bytes, wake), (65, false));
    let mut phase = UdpPhase::Received;
    let UdpAction::End { progress, wake } = direct.poll(&mut phase, &seen) else {
        panic!("end")
    };
    assert_eq!((progress, wake), (Progress::Closed, false));
    seen.received = Received::Failed;
    let UdpAction::End { progress, wake } = direct.poll(&mut phase, &seen) else {
        panic!("end")
    };
    assert_eq!((progress, wake), (Progress::Idle(None), true));
    direct.add_replies(VecDeque::from(vec![reply(6)]));
    let mut phase = UdpPhase::Reserved { fresh: true };
    let UdpAction::End { progress, .. } = direct.poll(&mut phase, &seen) else {
        panic!("end")
    };
    assert_eq!(progress, Progress::Closed);
}

#[test]
fn interfaces_are_checked_rule_by_rule() {
    for (name, valid) in [
        (&b"tun0"[..], true),
        (b"a_b.c-D9", true),
        (b"", false),
        (b".", false),
        (b"..", false),
        (b"...", true),
        (b"a/b", false),
        (b"0123456789abcde", true),
        (b"0123456789abcdef", false),
        (b"na me", false),
    ] {
        assert_eq!(check_options(name, 1500, false).is_ok(), valid, "{name:?}");
    }
    assert_eq!(check_options(b"x", 1279, false), Err(BindError::Mtu));
    assert_eq!(check_options(b"x", 1280, true), Err(BindError::IdleTimeout));
    assert_eq!(check_options(b"", 0, true), Err(BindError::Name));
    let v4 = |address, prefix| TunAddress { address: IpAddress::V4(address), prefix };
    let v6 = |address, prefix| TunAddress { address: IpAddress::V6(address), prefix };
    for (addresses, expected) in [
        (vec![], Ok(())),
        (vec![v4(0x0a00_0001, 32), v6(1, 128), v6(2, 0)], Ok(())),
        (vec![v4(0, 8)], Err(BindError::NotUnicast)),
        (vec![v6(1, 64), v6(1, 64)], Err(BindError::Duplicate)),
        (vec![v4(0x0a00_0001, 8), v4(0x0a00_0002, 8)], Err(BindError::SecondIpv4)),
        (vec![v4(0x0a00_0001, 33)], Err(BindError::Ipv4Prefix)),
        (vec![v6(1, 129)], Err(BindError::Ipv6Prefix)),
        (vec![v6(1, 129), v4(0, 8)], Err(BindError::Ipv6Prefix)),
    ] {
        assert_eq!(check_addresses(&addresses), expected);
    }
    for (error, message) in [
        (BindError::Name, "invalid TUN interface name"),
        (BindError::Mtu, "TUN MTU must be between 1280 and 65535"),
        (BindError::IdleTimeout, "UDP idle timeout must be positive"),
        (BindError::NotUnicast, "TUN address must be unicast"),
        (BindError::Duplicate, "duplicate TUN address"),
        (BindError::SecondIpv4, "TUN supports one IPv4 interface address"),
        (BindError::Ipv4Prefix, "invalid TUN IPv4 address or prefix"),
        (BindError::Ipv6Prefix, "invalid TUN IPv6 address or prefix"),
    ] {
        assert_eq!(error.message(), message);
    }
}

#[test]
fn a_device_waits_for_room_on_the_way_out() {
    let mut device = Device::new(1280);
    assert!(device.receive().is_none());
    device.deliver(vec![1; 10]);
    for index in 0..EGRESS {
        assert!(device.can_transmit());
        device.transmit(vec![index as u8; 20]);
    }
    assert!(!device.can_transmit());
    assert!(device.receive().is_none());
    assert_eq!(device.take_outgoing().unwrap(), [0; 20][..]);
    assert_eq!(device.receive().unwrap(), [1; 10]);
    assert_eq!(device.take_outgoing().unwrap(), [1; 20][..]);
}
