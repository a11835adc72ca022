//! What a worker owes to the packets and events that reach it.
use crate::index::KeyNumbers;
use crate::packet::{
    flow_of, law_datagrams_are_checked, law_segments_are_checked, spec_unicast, tcp_segment,
    udp_datagram, Flow,
};
use crate::segment::{is_tcp_packet, law_segment_reads_back};
use crate::udp::{lemma_part_count, part_count, part_end};
use crate::wire::{
    law_tcp_headers_read_as_they_stand, IpHeader, TcpControl, TcpFields, TCP, UDP,
};
use crate::worker::{
    datagram_size, examined, flow_key, law_datagrams_cover_the_payload, lemma_flow_keys_differ,
    lemma_removed_udp, lemma_started_tcp, lemma_started_udp, lemma_without, queued,
    sooner, spec_idle_until, spec_tick, without, Disposal, Event, Examined, Progress, Ready, Response, TcpEntry,
    Timer, UdpEntry, WorkerView,
};
use vstd::prelude::*;

verus! {

/// A worker sees a packet as its bytes stand. A valid segment asks for what its FIN, SYN
/// and RST bits say, acknowledges exactly where its ACK bit is set, and has the number
/// that its bytes spell; a valid datagram belongs to the flow of its ports. What is not
/// valid is told from what the worker does not carry.
pub proof fn law_packets_are_seen_as_they_stand(
    ip: IpHeader,
    s: Seq<u8>,
    verified: bool,
    stopping: bool,
)
    ensures
        ({
            let seen = examined(ip, s, verified, stopping);
            let of_ports = flow_of(
                ip,
                (256 * s[0] + s[1]) as u16,
                (256 * s[2] + s[3]) as u16,
            );
            &&& ip.protocol == 6 ==> match tcp_segment(ip, s, verified) {
                Some(_) => seen matches Examined::Tcp { flow, control, acknowledges, sequence } && {
                    &&& flow == of_ports
                    &&& control is Fin <==> s[13] & 7 == 1
                    &&& control is Syn <==> s[13] & 7 == 2
                    &&& control is Rst <==> s[13] & 7 == 4
                    &&& acknowledges <==> s[13] & 16 == 16
                    &&& sequence == 0x100_0000 * s[4] + 0x1_0000 * s[5] + 0x100 * s[6] + s[7]
                },
                None => seen is Invalid,
            }
            &&& ip.protocol == 17 && !stopping ==> match udp_datagram(ip, s, verified) {
                Some(_) => seen matches Examined::Udp { flow } && flow == of_ports,
                None => seen is Invalid,
            }
            &&& ip.protocol == 17 && stopping ==> seen is Other
            &&& ip.protocol != 6 && ip.protocol != 17 ==> seen is Other
        }),
{
    law_tcp_headers_read_as_they_stand(s);
    law_segments_are_checked(ip, s, verified);
    law_datagrams_are_checked(ip, s, verified);
}

/// A packet that carries a segment between hosts.
pub open spec fn carries(packet: Seq<u8>, ip: IpHeader, f: TcpFields, body: Seq<u8>) -> bool {
    &&& is_tcp_packet(packet, ip, f, body, false)
    &&& ip.wf()
    &&& ip.protocol == TCP
    &&& ip.hop_limit != 0
    &&& ip.payload_len == f.options.spec_header_len() + body.len()
    &&& ip.payload_len <= ip.max_payload()
    &&& spec_unicast(ip.source)
    &&& spec_unicast(ip.destination)
    &&& f.header_len == f.options.spec_header_len()
    &&& f.header_len <= 60
    &&& f.source_port != 0
    &&& f.destination_port != 0
    &&& f.options.readable(f.ack_number is Some)
}

/// A worker sees a segment as the one who wrote it meant it.
pub proof fn law_written_segments_are_seen_as_meant(
    packet: Seq<u8>,
    ip: IpHeader,
    f: TcpFields,
    body: Seq<u8>,
    stopping: bool,
)
    requires
        carries(packet, ip, f, body),
    ensures
        examined(ip, packet.skip(ip.spec_header_len()), false, stopping) == (Examined::Tcp {
            flow: flow_of(ip, f.source_port, f.destination_port),
            control: f.control,
            acknowledges: f.ack_number is Some,
            sequence: f.seq_number,
        }),
{
    law_segment_reads_back(packet, ip, f, body);
}

/// A written connection request of an unknown flow opens a connection at its owner, which
/// the worker knows from then on. A segment of an unknown flow that acknowledges something,
/// or asks for anything else, opens nothing and is answered with a reset; so is every
/// request once the worker stops.
pub proof fn law_requests_open_connections(
    packet: Seq<u8>,
    ip: IpHeader,
    f: TcpFields,
    body: Seq<u8>,
    v: WorkerView,
    closed: bool,
    waiting: Option<u32>,
)
    requires
        carries(packet, ip, f, body),
        !v.tcp.contains_key(flow_key(TCP, flow_of(ip, f.source_port, f.destination_port))),
        v.generation < u64::MAX,
    ensures
        ({
            let flow = flow_of(ip, f.source_port, f.destination_port);
            let seen = examined(ip, packet.skip(ip.spec_header_len()), false, v.stopping);
            let disposal = v.disposal(seen, true, closed, waiting);
            let id = Ready { flow, generation: (v.generation + 1) as u64 };
            if f.control is Syn && f.ack_number is None && !v.stopping {
                &&& disposal == Disposal::Tcp { id, new: true }
                &&& v.after_packet(disposal).has_tcp(id)
            } else {
                &&& disposal is Reject
                &&& v.after_packet(disposal) == v
            }
        }),
{
    law_written_segments_are_seen_as_meant(packet, ip, f, body, v.stopping);
}

/// A packet goes to the owner of its flow, untouched. The owner hands a segment to the
/// connection that it knows, unless a request may take its place; rejects it where it
/// knows none and the segment does not ask for one; and otherwise opens one. What does not
/// hold is dropped.
pub proof fn law_segments_find_their_connection(
    v: WorkerView,
    flow: Flow,
    control: TcpControl,
    acknowledges: bool,
    sequence: u32,
    mine: bool,
    closed: bool,
    waiting: Option<u32>,
)
    requires
        v.generation < u64::MAX,
    ensures
        ({
            let packet = Examined::Tcp { flow, control, acknowledges, sequence };
            let disposal = v.disposal(packet, mine, closed, waiting);
            let known = v.tcp.contains_key(flow_key(TCP, flow));
            let asks = control is Syn && !acknowledges && !v.stopping;
            let later = waiting matches Some(next) && 0 < (sequence - next) % 0x1_0000_0000
                < 0x8000_0000;
            &&& disposal is Forward <==> !mine
            &&& disposal is Reject <==> mine && !known && !asks
            &&& disposal is Tcp <==> mine && (known || asks)
            &&& !(disposal is Drop) && !(disposal is Ignore) && !(disposal is Udp)
            &&& disposal matches Disposal::Tcp { id, new } ==> {
                &&& id.flow == flow
                &&& new <==> asks && (known ==> later)
                &&& new ==> id.generation == v.generation + 1
                &&& !new ==> v.has_tcp(id)
            }
            &&& v.disposal(Examined::Invalid, mine, closed, waiting) is Drop
            &&& v.disposal(Examined::Other, mine, closed, waiting) is Ignore
        }),
{
}

/// A datagram goes to the owner of its flow, which hands it to the association that it
/// knows and that has not ended, and otherwise opens one. A worker that stops takes none.
pub proof fn law_datagrams_find_their_association(
    v: WorkerView,
    flow: Flow,
    mine: bool,
    closed: bool,
    waiting: Option<u32>,
)
    requires
        v.generation < u64::MAX,
    ensures
        ({
            let disposal = v.disposal(Examined::Udp { flow }, mine, closed, waiting);
            let known = v.udp.contains_key(flow_key(UDP, flow));
            &&& disposal is Ignore <==> v.stopping
            &&& disposal is Forward <==> !v.stopping && !mine
            &&& disposal is Udp <==> !v.stopping && mine
            &&& disposal matches Disposal::Udp { id, new } ==> {
                &&& id.flow == flow
                &&& new <==> !known || closed
                &&& new ==> id.generation == v.generation + 1 && v.after_packet(disposal).has_udp(
                    id,
                )
                &&& !new ==> v.has_udp(id)
            }
        }),
{
}

/// A packet changes nothing of the flows that it does not belong to, and nothing at all
/// unless it opens one. A flow that it opens waits for nothing.
pub proof fn law_packets_touch_only_their_flow(
    v: WorkerView,
    packet: Examined,
    mine: bool,
    closed: bool,
    waiting: Option<u32>,
    k: KeyNumbers,
)
    requires
        v.wf(),
        v.generation < u64::MAX,
    ensures
        ({
            let disposal = v.disposal(packet, mine, closed, waiting);
            let after = v.after_packet(disposal);
            &&& after.stopping == v.stopping && after.reported == v.reported
            &&& match disposal {
                Disposal::Tcp { id, new: true } => {
                    &&& after.udp == v.udp
                    &&& k != flow_key(TCP, id.flow) ==> after.tcp.contains_key(k)
                        == v.tcp.contains_key(k) && (v.tcp.contains_key(k) ==> after.tcp[k]
                        == v.tcp[k])
                    &&& after.tcp.contains_key(flow_key(TCP, id.flow))
                    &&& after.tcp[flow_key(TCP, id.flow)] == (TcpEntry {
                        flow: id.flow,
                        generation: id.generation,
                        deadline: None,
                        blocked: false,
                    })
                },
                Disposal::Udp { id, new: true } => {
                    &&& after.tcp == v.tcp
                    &&& after.timers == v.timers
                    &&& k != flow_key(UDP, id.flow) ==> after.udp.contains_key(k)
                        == v.udp.contains_key(k) && (v.udp.contains_key(k) ==> after.udp[k]
                        == v.udp[k])
                    &&& after.udp.contains_key(flow_key(UDP, id.flow))
                    &&& after.udp[flow_key(UDP, id.flow)] == (UdpEntry {
                        flow: id.flow,
                        generation: id.generation,
                        direct: false,
                        blocked: false,
                    })
                },
                _ => after == v,
            }
        }),
{
}

/// A flow that an event runs waits for nothing any more: neither for the writer nor for a
/// timer, and all others keep their places. An event of an incarnation that is gone runs
/// nothing and changes nothing.
pub proof fn law_events_run_whom_they_name(v: WorkerView, id: Ready)
    requires
        v.wf(),
    ensures
        ({
            let (after, response) = v.after_event(Event::Runnable(id));
            let serves = v.has_udp(id) && v.udp[flow_key(UDP, id.flow)].direct;
            &&& response == Response::RunUdp(id) <==> serves
            &&& response == Response::RunTcp(id) <==> v.has_tcp(id) && !serves
            &&& response is Wait <==> !v.has_tcp(id) && !serves
            &&& response is Wait ==> after == v
            &&& !(response is Wait) ==> !queued(after.blocked, id)
            &&& response is RunTcp ==> {
                &&& after.udp == v.udp
                &&& after.has_tcp(id)
                &&& after.tcp[flow_key(TCP, id.flow)].deadline is None
                &&& !after.tcp[flow_key(TCP, id.flow)].blocked
                &&& forall|at: u64| !after.timers.contains(
                    Timer { at, generation: id.generation, flow: id.flow },
                )
            }
            &&& response is RunUdp ==> {
                &&& after.tcp == v.tcp
                &&& after.timers == v.timers
                &&& after.has_udp(id)
                &&& after.udp[flow_key(UDP, id.flow)].direct
                &&& !after.udp[flow_key(UDP, id.flow)].blocked
            }
            &&& after.generation == v.generation && after.stopping == v.stopping
            &&& forall|other: Ready|
                other != id ==> (#[trigger] queued(after.blocked, other) == queued(
                    v.blocked,
                    other,
                ))
        }),
{
    broadcast use lemma_flow_keys_differ;

    let (after, response) = v.after_event(Event::Runnable(id));
    lemma_without(v.blocked, id);
    if response is RunTcp {
        lemma_started_tcp(v, id);
        assert(!after.waits(id)) by {
            if after.has_udp(id) {
                assert(after.tcp.contains_key(flow_key(TCP, id.flow)));
                assert(after.udp.contains_key(flow_key(UDP, id.flow)));
            }
        }
        assert forall|at: u64| !after.timers.contains(
            Timer { at, generation: id.generation, flow: id.flow },
        ) by {
            assert(!after.wants(Timer { at, generation: id.generation, flow: id.flow }));
        }
    }
    if response is RunUdp {
        lemma_started_udp(v, id);
        assert(!after.waits(id)) by {
            if after.has_tcp(id) {
                assert(after.tcp.contains_key(flow_key(TCP, id.flow)));
                assert(after.udp.contains_key(flow_key(UDP, id.flow)));
            }
        }
    }
}

/// An association that has ended is forgotten, with its place in the writer's queue; the
/// end of an incarnation that is gone changes nothing. An offered socket is taken by the
/// incarnation that it was offered to, if that has not ended, and the worker then serves
/// it.
pub proof fn law_associations_end_and_change_hands(v: WorkerView, id: Ready, closed: bool)
    requires
        v.wf(),
    ensures
        ({
            let (after, response) = v.after_event(Event::Completed(id));
            &&& response is Wait
            &&& !after.has_udp(id)
            &&& !v.has_udp(id) ==> after == v
            &&& v.has_udp(id) ==> !queued(after.blocked, id)
            &&& after.tcp == v.tcp
            &&& forall|k: KeyNumbers|
                k != flow_key(UDP, id.flow) ==> (#[trigger] after.udp.contains_key(k)
                    == v.udp.contains_key(k)) && (v.udp.contains_key(k) ==> after.udp[k]
                    == v.udp[k])
        }),
        ({
            let (after, response) = v.after_event(Event::Transfer { id, closed });
            &&& response == Response::Take(id) <==> v.has_udp(id) && !closed
            &&& !(response is Take) ==> response is Wait && after == v
            &&& response is Take ==> {
                &&& after.tcp == v.tcp
                &&& after.blocked == v.blocked
                &&& after.timers == v.timers
                &&& after.has_udp(id)
                &&& after.udp[flow_key(UDP, id.flow)].direct
                &&& after.udp[flow_key(UDP, id.flow)].blocked == v.udp[flow_key(
                    UDP,
                    id.flow,
                )].blocked
                &&& after.after_event(Event::Runnable(id)).1 == Response::RunUdp(id)
            }
        }),
{
    broadcast use lemma_flow_keys_differ;

    if v.has_udp(id) {
        let after = v.removed_udp(id);
        lemma_removed_udp(v, id);
        assert(!after.waits(id)) by {
            if after.has_tcp(id) {
                assert(v.tcp.contains_key(flow_key(TCP, id.flow)));
                assert(v.udp.contains_key(flow_key(UDP, id.flow)));
            }
        }
    }
}

/// A connection that ends its turn waits for what the turn says: for a time, or behind all
/// others for so many bytes of the writer's queue. One that has closed is gone. Nothing
/// else changes.
pub proof fn law_turns_are_settled_as_they_end(
    v: WorkerView,
    id: Ready,
    progress: Progress,
    timers: Seq<Timer>,
    k: KeyNumbers,
)
    requires
        v.has_tcp(id),
    ensures
        ({
            let after = v.settled_tcp(id, progress, timers);
            let own = flow_key(TCP, id.flow);
            &&& after.udp == v.udp && after.generation == v.generation && after.stopping
                == v.stopping && after.reported == v.reported
            &&& k != own ==> after.tcp.contains_key(k) == v.tcp.contains_key(k) && (
            v.tcp.contains_key(k) ==> after.tcp[k] == v.tcp[k])
            &&& after.has_tcp(id) <==> !(progress is Closed)
            &&& progress is Closed ==> !after.tcp.contains_key(own)
            &&& progress matches Progress::Idle(deadline) ==> after.tcp[own].deadline == deadline
                && after.tcp[own].blocked == v.tcp[own].blocked
            &&& progress is Again ==> after == v
            &&& progress matches Progress::Blocked(bytes) ==> {
                &&& after.tcp[own].blocked
                &&& after.tcp[own].deadline == v.tcp[own].deadline
                &&& after.blocked.len() == v.blocked.len() + 1
                &&& after.blocked.last() == (id, bytes)
                &&& after.blocked.drop_last() == v.blocked
            }
            &&& !(progress is Blocked) ==> after.blocked == v.blocked
        }),
{
    if progress is Blocked {
        assert(v.settled_tcp(id, progress, timers).blocked.drop_last() =~= v.blocked);
    }
}

/// An association that ends its turn waits behind all others for so many bytes of the
/// writer's queue, or is gone, as the turn says. Nothing else changes.
pub proof fn law_exchanges_are_settled_as_they_end(
    v: WorkerView,
    id: Ready,
    progress: Progress,
    k: KeyNumbers,
)
    requires
        v.has_udp(id),
    ensures
        ({
            let after = v.settled_udp(id, progress);
            let own = flow_key(UDP, id.flow);
            &&& after.tcp == v.tcp && after.timers == v.timers && after.generation == v.generation
                && after.stopping == v.stopping && after.reported == v.reported
            &&& k != own ==> after.udp.contains_key(k) == v.udp.contains_key(k) && (
            v.udp.contains_key(k) ==> after.udp[k] == v.udp[k])
            &&& after.has_udp(id) <==> !(progress is Closed)
            &&& progress is Closed ==> !after.udp.contains_key(own)
            &&& progress is Idle || progress is Again ==> after == v
            &&& progress matches Progress::Blocked(bytes) ==> {
                &&& after.udp[own] == (UdpEntry { blocked: true, ..v.udp[own] })
                &&& after.blocked.len() == v.blocked.len() + 1
                &&& after.blocked.last() == (id, bytes)
                &&& after.blocked.drop_last() == v.blocked
            }
            &&& !(progress is Blocked) ==> after.blocked == v.blocked
        }),
{
    if progress is Blocked {
        assert(v.settled_udp(id, progress).blocked.drop_last() =~= v.blocked);
    }
}

/// Where the device says nothing of sizes, a payload is one datagram. Where it does, every
/// datagram but the last has that size, and the last has what is left.
pub proof fn law_sizes_of_the_device_cut_the_payload(len: int, segment: Option<u16>, i: int)
    requires
        len > 0,
        segment != Some(0u16),
        0 <= i < part_count(len, datagram_size(len, segment)),
    ensures
        ({
            let size = datagram_size(len, segment);
            let count = part_count(len, size);
            let n = part_end(len, size, i) - i * size;
            &&& segment is None ==> count == 1 && n == len
            &&& segment matches Some(given) ==> {
                &&& i + 1 < count ==> n == given
                &&& 0 < n <= given
                &&& i + 1 == count ==> i * given + n == len
            }
        }),
{
    let size = datagram_size(len, segment);
    lemma_part_count(len, size);
    law_datagrams_cover_the_payload(len, size, i);
    assert((i + 1) * size == i * size + size) by (nonlinear_arith);
    if segment is None {
        let count = part_count(len, size);
        assert(count == 1) by (nonlinear_arith)
            requires
                (count - 1) * size < len <= count * size,
                size == len,
                len > 0,
        ;
        assert(i == 0);
    }
    if i + 1 == part_count(len, size) {
        assert(i * size < len);
    }
}

/// An association is given up once it has been idle for as long as allowed, not sooner,
/// and until then it is looked at again at that very time.
pub proof fn law_idle_associations_end_in_time(last: u64, idle: u64, now: u64)
    requires
        last + idle <= u64::MAX,
    ensures
        spec_idle_until(last, idle, now) is None <==> now - last >= idle,
        spec_idle_until(last, idle, now) matches Some(at) ==> at - last == idle && at > now,
{
}

/// A worker lets others run after every sixty-four turns.
pub proof fn law_workers_let_others_run(turns: usize)
    requires
        turns < 64,
    ensures
        spec_tick(turns).1 <==> turns == 63,
        spec_tick(turns).1 ==> spec_tick(turns).0 == 0,
        !spec_tick(turns).1 ==> spec_tick(turns).0 == turns + 1,
{
}

/// The timers of a worker run in the order of their times, and each belongs to a connection
/// that wants it.
pub proof fn law_timers_run_in_their_order(v: WorkerView, i: int, j: int)
    requires
        v.wf(),
        0 <= i < j < v.timers.len(),
    ensures
        v.timers[i].at <= v.timers[j].at,
        v.timers[i] != v.timers[j],
        ({
            let timer = v.timers[i];
            let k = flow_key(TCP, timer.flow);
            v.tcp.contains_key(k) && v.tcp[k].generation == timer.generation && v.tcp[k].deadline
                == Some(timer.at)
        }),
{
    assert(sooner(v.timers[i], v.timers[j]));
    assert(v.timers.contains(v.timers[i]));
    assert(v.wants(v.timers[i]));
}

/// The queue of the writer holds each flow at most once, and only flows that wait for it; a
/// flow that leaves it takes nobody else along.
pub proof fn law_the_writers_queue_is_fair(v: WorkerView, i: int, j: int, id: Ready)
    requires
        v.wf(),
        0 <= i < j < v.blocked.len(),
        v.blocked[j].0 == id,
    ensures
        v.blocked[i].0 != v.blocked[j].0,
        v.waits(v.blocked[i].0),
        without(v.blocked, id).len() == v.blocked.len() - 1,
        without(v.blocked, id)[i] == v.blocked[i],
{
    assert(queued(v.blocked, v.blocked[i].0));
    assert(queued(v.blocked, id));
    let k = choose|k: int| 0 <= k < v.blocked.len() && (#[trigger] v.blocked[k]).0 == id;
    assert(k == j) by {
        if k < j {
            assert(v.blocked[k].0 != v.blocked[j].0);
        } else if j < k {
            assert(v.blocked[j].0 != v.blocked[k].0);
        }
    }
}

/// A timer that is due, and room in the writer's queue, run the flow that has waited for
/// it as if that had been named; without such a flow they do nothing.
pub proof fn law_waits_end_as_if_named(v: WorkerView)
    ensures
        v.timers.len() > 0 ==> v.after_event(Event::Timer) == v.after_event(
            Event::Runnable(
                Ready { flow: v.timers[0].flow, generation: v.timers[0].generation },
            ),
        ),
        v.blocked.len() > 0 ==> v.after_event(Event::Writable) == v.after_event(
            Event::Runnable(v.blocked[0].0),
        ),
        v.timers.len() == 0 ==> v.after_event(Event::Timer) == (v, Response::Wait),
        v.blocked.len() == 0 ==> v.after_event(Event::Writable) == (v, Response::Wait),
{
}

/// A flow that a packet opens takes nobody's place in the writer's queue or among the
/// timers but that of the incarnation which it replaces.
pub proof fn law_new_flows_disturb_no_wait(
    v: WorkerView,
    packet: Examined,
    mine: bool,
    closed: bool,
    waiting: Option<u32>,
    other: Ready,
)
    requires
        v.wf(),
        v.generation < u64::MAX,
        ({
            let disposal = v.disposal(packet, mine, closed, waiting);
            &&& disposal matches Disposal::Tcp { id, new: true } ==> other.flow != id.flow
            &&& disposal matches Disposal::Udp { id, new: true } ==> other.flow != id.flow
        }),
    ensures
        ({
            let disposal = v.disposal(packet, mine, closed, waiting);
            let after = v.after_packet(disposal);
            &&& queued(after.blocked, other) == queued(v.blocked, other)
            &&& disposal matches Disposal::Tcp { id, new: true } ==> (!v.tcp.contains_key(
                flow_key(TCP, id.flow),
            ) ==> after.blocked == v.blocked && after.timers == v.timers)
            &&& disposal matches Disposal::Udp { id, new: true } ==> (!v.udp.contains_key(
                flow_key(UDP, id.flow),
            ) ==> after.blocked == v.blocked)
        }),
{
    match v.disposal(packet, mine, closed, waiting) {
        Disposal::Tcp { id, new: true } => {
            let k = flow_key(TCP, id.flow);
            lemma_without(v.blocked, Ready { flow: id.flow, generation: v.tcp[k].generation });
        },
        Disposal::Udp { id, new: true } => {
            let k = flow_key(UDP, id.flow);
            lemma_without(v.blocked, Ready { flow: id.flow, generation: v.udp[k].generation });
        },
        _ => {},
    }
}

} // verus!
