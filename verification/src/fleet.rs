//! The workers of an endpoint together: which of them gets what, whichever queue a
//! frame comes in by.
use crate::decoder::{decoded, piece_of, AssemblyView, REASSEMBLY_LIFETIME};
use crate::packet::{spec_parse, spec_route, udp_datagram, Flow, RouteKey};
use crate::pieces::{law_consistent_fragments_complete, ready, run, Feed};
use crate::reassembly::Limits;
use crate::roundtrip::{
    deliverable, law_fragments_read_back, law_fragments_share_a_route,
    law_whole_datagrams_read_back, law_whole_frame_parses, lemma_feed, lemma_flow_route, Arrival,
};
use crate::shared::contents;
use crate::udp::{ip_header_len, is_framed, udp_bytes};
use crate::wire::{IpHeader, SocketAddress, TCP, UDP};
use crate::worker::{examined, Examined};
use bytes::Bytes;
use vstd::prelude::*;

verus! {

/// What the workers' decoders hold, what their common accounts say, and which whole
/// packets have reached which worker.
pub struct Fleet {
    pub states: Seq<Seq<AssemblyView>>,
    pub limits: Limits,
    pub packets: Seq<(int, IpHeader, Seq<u8>)>,
}

/// The worker that a whole packet ends up with: the owner of its flow, or the one
/// that has it where it has no flow.
pub open spec fn receiver(
    owner: spec_fn(RouteKey) -> int,
    ip: IpHeader,
    payload: Seq<u8>,
    at: int,
) -> int {
    match examined(ip, payload, false, false) {
        Examined::Tcp { flow, .. } => owner(RouteKey::Flow(TCP, flow)),
        Examined::Udp { flow } => owner(RouteKey::Flow(UDP, flow)),
        _ => at,
    }
}

/// Frames that come in by some queues one after another, each with its time. The
/// worker of the queue hands a frame to the worker that owns what the frame says of
/// its route; that one reads it, and hands a whole packet to the owner of its flow.
pub open spec fn fleet_run(
    states: Seq<Seq<AssemblyView>>,
    limits: Limits,
    owner: spec_fn(RouteKey) -> int,
    frames: Seq<(int, Seq<u8>, u64)>,
) -> Fleet
    decreases frames.len(),
{
    if frames.len() == 0 {
        Fleet { states, limits, packets: Seq::empty() }
    } else {
        let before = fleet_run(states, limits, owner, frames.drop_last());
        let (_, frame, now) = frames.last();
        match spec_parse(frame) {
            None => before,
            Some(parsed) => match spec_route(parsed) {
                None => before,
                Some(key) => {
                    let at = owner(key);
                    let after = decoded(
                        before.states[at],
                        before.limits,
                        Some(parsed),
                        now,
                        (now + REASSEMBLY_LIFETIME) as u64,
                        None,
                    );
                    Fleet {
                        states: before.states.update(at, after.0),
                        limits: after.1,
                        packets: match after.2 {
                            Some(packet) => before.packets.push(
                                (receiver(owner, packet.0, packet.1, at), packet.0, packet.1),
                            ),
                            None => before.packets,
                        },
                    }
                },
            },
        }
    }
}

/// Frames with the queues that they come in by.
pub open spec fn spread(frames: Seq<(Seq<u8>, u64)>, queues: Seq<int>) -> Seq<
    (int, Seq<u8>, u64),
> {
    Seq::new(frames.len(), |k: int| (queues[k], frames[k].0, frames[k].1))
}

/// Packets of one worker's decoder, with the workers that they end up with.
pub open spec fn received(
    owner: spec_fn(RouteKey) -> int,
    at: int,
    packets: Seq<(IpHeader, Seq<u8>)>,
) -> Seq<(int, IpHeader, Seq<u8>)> {
    packets.map_values(
        |packet: (IpHeader, Seq<u8>)|
            (receiver(owner, packet.0, packet.1, at), packet.0, packet.1),
    )
}

/// Frames of one route are read by one worker as if they had all come to it.
proof fn lemma_one_route(
    states: Seq<Seq<AssemblyView>>,
    limits: Limits,
    owner: spec_fn(RouteKey) -> int,
    frames: Seq<(Seq<u8>, u64)>,
    queues: Seq<int>,
    key: RouteKey,
)
    requires
        0 <= owner(key) < states.len(),
        queues.len() == frames.len(),
        forall|k: int|
            0 <= k < frames.len() ==> spec_parse((#[trigger] frames[k]).0) is Some && spec_route(
                spec_parse(frames[k].0)->0,
            ) == Some(key),
    ensures
        ({
            let out = fleet_run(states, limits, owner, spread(frames, queues));
            let alone = run(states[owner(key)], limits, frames);
            &&& out.states == states.update(owner(key), alone.state)
            &&& out.limits == alone.limits
            &&& out.packets == received(owner, owner(key), alone.packets)
        }),
    decreases frames.len(),
{
    let at = owner(key);
    if frames.len() == 0 {
        assert(states.update(at, states[at]) =~= states);
        assert(received(owner, at, Seq::empty()) =~= Seq::<(int, IpHeader, Seq<u8>)>::empty());
    } else {
        let rest = frames.drop_last();
        assert forall|k: int| 0 <= k < rest.len() implies spec_parse((#[trigger] rest[k]).0) is Some
            && spec_route(spec_parse(rest[k].0)->0) == Some(key) by {
            assert(rest[k] == frames[k]);
        }
        lemma_one_route(states, limits, owner, rest, queues.drop_last(), key);
        assert(spread(frames, queues).drop_last() =~= spread(rest, queues.drop_last()));
        let last = frames[frames.len() - 1];
        assert(spec_route(spec_parse(last.0)->0) == Some(key));
        let before = run(states[at], limits, rest);
        let alone = run(states[at], limits, frames);
        assert(states.update(at, before.state).update(at, alone.state) =~= states.update(
            at,
            alone.state,
        ));
        let out = fleet_run(states, limits, owner, spread(frames, queues));
        assert(out.packets =~= received(owner, at, alone.packets));
    }
}

/// The fragments of a datagram may come in by several queues, in any order that can be
/// recorded: the owner of the datagram's flow gets the datagram once, whole, and no
/// other worker's state changes but that of the one that puts it together.
pub proof fn law_fragments_reach_the_flows_owner(
    states: Seq<Seq<AssemblyView>>,
    limits: Limits,
    owner: spec_fn(RouteKey) -> int,
    arrival: Arrival,
    queues: Seq<int>,
)
    requires
        arrival.wf(),
        queues.len() == arrival.frames.len(),
        0 <= owner(RouteKey::Fragment(arrival.cut().key)) < states.len(),
        ready(
            arrival.cut(),
            states[owner(RouteKey::Fragment(arrival.cut().key))],
            limits,
            Set::empty(),
            arrival.times[0],
        ),
    ensures
        ({
            let out = fleet_run(states, limits, owner, spread(arrival.feed().frames, queues));
            let at = owner(RouteKey::Fragment(arrival.cut().key));
            let flow = Flow { source: arrival.source, destination: arrival.destination };
            &&& out.packets.len() == 1
            &&& out.packets[0].0 == owner(RouteKey::Flow(UDP, flow))
            &&& udp_datagram(out.packets[0].1, out.packets[0].2, false) == Some(
                (flow, arrival.payload),
            )
            &&& out.states.len() == states.len()
            &&& forall|v: int|
                0 <= v < states.len() && v != at ==> #[trigger] out.states[v] == states[v]
        }),
{
    let key = RouteKey::Fragment(arrival.cut().key);
    let feed = arrival.feed();
    lemma_feed(arrival);
    assert forall|k: int| 0 <= k < feed.frames.len() implies spec_parse(
        (#[trigger] feed.frames[k]).0,
    ) is Some && spec_route(spec_parse(feed.frames[k].0)->0) == Some(key) by {
        assert(feed.carries(k));
        law_fragments_share_a_route(arrival, arrival.order[k], arrival.order[k]);
    }
    lemma_one_route(states, limits, owner, feed.frames, queues, key);
    law_fragments_read_back(states[owner(key)], limits, arrival);
    law_consistent_fragments_complete(states[owner(key)], limits, feed, 0);
    lemma_last_header(arrival, feed);
}

/// The packet that fragments make is one of UDP.
proof fn lemma_last_header(arrival: Arrival, feed: Feed)
    requires
        arrival.each_once(),
        feed == arrival.feed(),
        feed.each_once(),
    ensures
        feed.parsed(feed.frames.len() - 1).ip.protocol == UDP,
{
    let last = feed.frames.len() - 1;
    assert(feed.carries(last));
    assert(piece_of(feed.parsed(last), 0, None).protocol == UDP);
}

/// A datagram that fits the link reaches the same worker as the fragments of a larger
/// one of its flow, whichever queue its frame comes in by. So one worker gets all
/// datagrams of a flow.
pub proof fn law_whole_datagrams_reach_the_flows_owner(
    states: Seq<Seq<AssemblyView>>,
    limits: Limits,
    owner: spec_fn(RouteKey) -> int,
    frames: Seq<Bytes>,
    mtu: int,
    source: SocketAddress,
    destination: SocketAddress,
    payload: Seq<u8>,
    id: u32,
    now: u64,
    queue: int,
)
    requires
        deliverable(source, destination, payload.len() as int),
        ip_header_len(source) + 8 + payload.len() <= mtu,
        is_framed(frames, mtu, source, destination, udp_bytes(source, destination, payload), id),
        0 <= owner(RouteKey::Flow(UDP, (Flow { source, destination }))) < states.len(),
    ensures
        ({
            let flow = Flow { source, destination };
            let out = fleet_run(states, limits, owner, seq![(queue, contents(frames[0]), now)]);
            &&& out.packets.len() == 1
            &&& out.packets[0].0 == owner(RouteKey::Flow(UDP, flow))
            &&& udp_datagram(out.packets[0].1, out.packets[0].2, false) == Some((flow, payload))
            &&& out.states == states
            &&& out.limits == limits
        }),
{
    let flow = Flow { source, destination };
    let key = RouteKey::Flow(UDP, flow);
    let at = owner(key);
    let frame = contents(frames[0]);
    let feed = seq![(frame, now)];
    law_whole_frame_parses(frame, source, destination, payload);
    let p = spec_parse(frame)->0;
    let datagram = udp_bytes(source, destination, payload);
    assert(datagram.take(datagram.len() as int) =~= datagram);
    lemma_flow_route(p, source, destination, payload, datagram.len() as int);
    assert(spec_route(p) == Some(key));
    lemma_one_route(states, limits, owner, feed, seq![queue], key);
    assert(spread(feed, seq![queue]) =~= seq![(queue, frame, now)]);
    law_whole_datagrams_read_back(
        states[at],
        limits,
        frames,
        mtu,
        source,
        destination,
        payload,
        id,
        now,
    );
    assert(states.update(at, states[at]) =~= states);
    assert(feed.drop_last() =~= Seq::<(Seq<u8>, u64)>::empty());
    assert(run(states[at], limits, feed).packets[0].0.protocol == UDP);
}

} // verus!
