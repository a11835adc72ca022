//! Frames on their way from and to the device, and the endpoint's own shutdown.
use crate::checksum::{be16, fold, pseudo_sum};
use crate::shared::{as_slice, contents, from_vec};
use crate::transmit::{lemma_total_len, total_len, Transmit};
use crate::udp::{
    be_bytes, encodable, ip_header_len, is_framed, max_datagram, udp_bytes, udp_ip, Encoder,
};
use crate::wire::{is_ip_header, SocketAddress, UDP};
use bytes::Bytes;
use std::collections::VecDeque;
use vstd::prelude::*;

verus! {

/// A received frame. Offload assertions come from the device alone; ordinary
/// packet readers leave both fields unset and get full validation.
pub struct Received {
    pub bytes: Bytes,
    /// The size of the block that the frame keeps alive.
    pub allocation_size: usize,
    pub checksum_verified: bool,
    /// UDP segmentation, never IP fragmentation: each slice is one datagram.
    pub udp_segment_size: Option<u16>,
}

/// A received frame is copied out of its buffer.
pub open spec fn spec_copies_out(len: int, capacity: int) -> bool {
    len < capacity / 4
}

/// Whether a received frame is copied out of its buffer, which then stays for the
/// next one. Only a frame that fills a quarter of the buffer takes it along.
pub fn copies_out(len: usize, capacity: usize) -> (r: bool)
    ensures
        r == spec_copies_out(len as int, capacity as int),
{
    len < capacity / 4
}

/// The most datagrams that one aggregate carries.
pub const MAX_AGGREGATE: usize = 64;

/// One call of the device: packets as they are, one TCP aggregate, or equal
/// datagrams that share a header.
pub enum Action {
    Batch(Vec<Bytes>),
    Tcp { packet: Bytes, payload: Vec<Bytes>, segment_size: u16 },
    Udp { header: Bytes, parts: Vec<Bytes>, size: u16 },
}

/// What leaves through the device for one queued item, piece by piece.
pub enum Unit {
    Frame(Bytes),
    Tcp(Bytes, Seq<Bytes>, u16),
    Part(Bytes, Bytes, u16),
}

/// Frames as units.
pub open spec fn frame_units(frames: Seq<Bytes>) -> Seq<Unit> {
    frames.map_values(|b: Bytes| Unit::Frame(b))
}

/// What one call of the device sends.
pub open spec fn action_units(action: Action) -> Seq<Unit> {
    match action {
        Action::Batch(packets) => frame_units(packets@),
        Action::Tcp { packet, payload, segment_size } => seq![
            Unit::Tcp(packet, payload@, segment_size),
        ],
        Action::Udp { header, parts, size } => parts@.map_values(
            |part: Bytes| Unit::Part(header, part, size),
        ),
    }
}

/// What some calls of the device send, in order.
pub open spec fn sent_units(actions: Seq<Action>) -> Seq<Unit>
    decreases actions.len(),
{
    if actions.len() == 0 {
        Seq::empty()
    } else {
        sent_units(actions.drop_last()) + action_units(actions.last())
    }
}

/// All units of some items, in order.
pub open spec fn flattened(trace: Seq<Seq<Unit>>) -> Seq<Unit>
    decreases trace.len(),
{
    if trace.len() == 0 {
        Seq::empty()
    } else {
        flattened(trace.drop_last()) + trace.last()
    }
}

/// A datagram that the device may cut out of an aggregate.
pub open spec fn aggregable(
    mtu: int,
    udp_gso: bool,
    source: SocketAddress,
    destination: SocketAddress,
    len: int,
) -> bool {
    &&& udp_gso
    &&& len != 0
    &&& source.ip is V4 == destination.ip is V4
    &&& source.port != 0
    &&& len + ip_header_len(source) + 8 <= mtu
}

/// The units of one item: a packet or a TCP aggregate as it is; a datagram as one
/// part of an aggregate, as its frames, or as nothing where it has no form on the
/// wire.
pub open spec fn carries(item: Transmit, units: Seq<Unit>, mtu: int, udp_gso: bool) -> bool {
    match item {
        Transmit::Packet(packet) => units =~= seq![Unit::Frame(packet)],
        Transmit::TcpGso { packet, payload, segment_size } => units =~= seq![
            Unit::Tcp(packet, payload@, segment_size),
        ],
        Transmit::Datagram { source, destination, payload } => {
            let bytes = contents(payload);
            if aggregable(mtu, udp_gso, source, destination, bytes.len() as int) {
                units.len() == 1 && (units[0] matches Unit::Part(header, part, size) && part
                    == payload && size == bytes.len() && is_shared_header(
                    contents(header),
                    source,
                    destination,
                ))
            } else if encodable(source, destination, bytes.len() as int) {
                exists|frames: Seq<Bytes>, id: u32|
                    #![trigger is_framed(
                        frames,
                        mtu,
                        source,
                        destination,
                        udp_bytes(source, destination, bytes),
                        id,
                    )]
                    units =~= frame_units(frames) && is_framed(
                        frames,
                        mtu,
                        source,
                        destination,
                        udp_bytes(source, destination, bytes),
                        id,
                    )
            } else {
                units.len() == 0
            }
        },
    }
}

/// A header for an aggregate of datagrams between these ends, with the partial
/// checksum that the device completes.
pub open spec fn is_shared_header(
    header: Seq<u8>,
    source: SocketAddress,
    destination: SocketAddress,
) -> bool {
    exists|total: int|
        #![trigger udp_ip(source, destination, total)]
        8 <= total <= max_datagram(source) + 8 && header.len() == ip_header_len(source) + 8
            && is_ip_header(
            header.take(ip_header_len(source)),
            udp_ip(source, destination, total),
        ) && header.skip(ip_header_len(source)) == be_bytes(source.port as int) + be_bytes(
            destination.port as int,
        ) + be_bytes(total) + be_bytes(
            fold(pseudo_sum(source.ip, destination.ip, UDP as int, total)),
        )
}

/// A call that the device accepts: at least one packet, or a bounded number of
/// parts of the given size under a header that gives their length. Several of them
/// fit one IPv4 datagram together.
pub open spec fn bounded(action: Action) -> bool {
    match action {
        Action::Udp { header, parts, size } => {
            &&& 0 < parts@.len() <= MAX_AGGREGATE
            &&& size > 0
            &&& contents(header).len() >= 28
            &&& be16(contents(header), contents(header).len() - 4) == 8 + parts@.len() * size
            &&& parts@.len() == 1 || parts@.len() * size <= 65507
            &&& forall|i: int| 0 <= i < parts@.len() ==> contents(#[trigger] parts@[i]).len() == size
        },
        Action::Batch(packets) => packets@.len() > 0,
        _ => true,
    }
}

/// Whether no further part of a size fits an aggregate.
pub open spec fn is_full(parts: int, size: int) -> bool {
    parts >= MAX_AGGREGATE || (parts + 1) * size > 65507
}

/// Packets in a row are sent by one call.
pub open spec fn batches_apart(actions: Seq<Action>) -> bool {
    forall|i: int|
        0 <= i < actions.len() - 1 ==> !((#[trigger] actions[i]) is Batch && actions[i
            + 1] is Batch)
}

/// An item is a datagram that could join an aggregate between two ends, of datagrams
/// of this size.
pub open spec fn joins(
    item: Transmit,
    source: SocketAddress,
    destination: SocketAddress,
    size: int,
) -> bool {
    item matches Transmit::Datagram { source: s, destination: d, payload: p } && s == source && d
        == destination && contents(p).len() == size
}

/// The parts of an aggregate are the items just before `next`, all between the same
/// ends, and it ends there because it is full, or because what follows could not
/// join it: nothing, an item of another kind, or a datagram of other ends or of
/// another size, such as one that has no form on the wire.
pub open spec fn is_group(
    items: Seq<Transmit>,
    parts: Seq<Bytes>,
    size: u16,
    next: int,
    source: SocketAddress,
    destination: SocketAddress,
) -> bool {
    &&& parts.len() <= next <= items.len()
    &&& forall|k: int|
        0 <= k < parts.len() ==> items[next - parts.len() + k] == (Transmit::Datagram {
            source,
            destination,
            payload: #[trigger] parts[k],
        })
    &&& is_full(parts.len() as int, size as int) || next == items.len() || !joins(
        items[next],
        source,
        destination,
        size as int,
    )
}

/// If a call sends an aggregate, it carries the items just before `next`, and no
/// further one could have joined it.
pub open spec fn ends_at(items: Seq<Transmit>, action: Action, next: int) -> bool {
    action matches Action::Udp { header, parts, size } ==> exists|
        source: SocketAddress,
        destination: SocketAddress,
    | #[trigger]
        is_group(items, parts@, size, next, source, destination) && is_shared_header(
            contents(header),
            source,
            destination,
        )
}

/// Every aggregate is as large as it can be. `next` tells for each call which item
/// follows it; aggregates share no items.
pub open spec fn grouped(items: Seq<Transmit>, actions: Seq<Action>, next: Seq<int>) -> bool {
    &&& next.len() == actions.len()
    &&& forall|i: int| 0 <= i < actions.len() ==> ends_at(items, #[trigger] actions[i], next[i])
    &&& forall|i: int, j: int|
        0 <= i < j < actions.len() && actions[i] is Udp ==> (
        (#[trigger] actions[j]) matches Action::Udp { parts, .. } ==> #[trigger] next[i] <= next[j]
            - parts@.len())
}

/// A plan for some items: their units leave in order, each exactly once.
pub open spec fn planned(
    items: Seq<Transmit>,
    actions: Seq<Action>,
    mtu: int,
    udp_gso: bool,
) -> bool {
    exists|trace: Seq<Seq<Unit>>|
        #![trigger flattened(trace)]
        trace.len() == items.len() && flattened(trace) == sent_units(actions) && (forall|i: int|
            0 <= i < items.len() ==> carries(#[trigger] items[i], trace[i], mtu, udp_gso))
}

proof fn lemma_sent_push(actions: Seq<Action>, action: Action)
    ensures
        sent_units(actions.push(action)) == sent_units(actions) + action_units(action),
{
    assert(actions.push(action).drop_last() =~= actions);
}

proof fn lemma_flattened_push(trace: Seq<Seq<Unit>>, units: Seq<Unit>)
    ensures
        flattened(trace.push(units)) == flattened(trace) + units,
{
    assert(trace.push(units).drop_last() =~= trace);
}

/// Takes the datagrams at the front that can join an aggregate between two ends,
/// each of `size` bytes.
fn gather(
    items: &mut VecDeque<Transmit>,
    parts: &mut Vec<Bytes>,
    source: SocketAddress,
    destination: SocketAddress,
    size: usize,
)
    requires
        0 < size <= 65527,
        old(parts)@.len() == 1,
        contents(old(parts)@[0]).len() == size,
    ensures
        1 <= final(parts)@.len() <= MAX_AGGREGATE,
        final(parts)@.len() == 1 || final(parts)@.len() * size <= 65507,
        final(parts)@.len() - 1 <= old(items)@.len(),
        final(items)@ == old(items)@.skip(final(parts)@.len() - 1),
        final(parts)@[0] == old(parts)@[0],
        forall|i: int|
            0 <= i < final(parts)@.len() ==> contents(#[trigger] final(parts)@[i]).len() == size,
        forall|i: int|
            1 <= i < final(parts)@.len() ==> old(items)@[i - 1] == (Transmit::Datagram {
                source,
                destination,
                payload: #[trigger] final(parts)@[i],
            }),
        // Nothing that could have joined is left at the front.
        is_full(final(parts)@.len() as int, size as int) || final(items)@.len() == 0 || !joins(
            final(items)@[0],
            source,
            destination,
            size as int,
        ),
{
    let ghost all = items@;
    let ghost first = parts@[0];
    let mut total: usize = size;
    assert(all.skip(0) =~= all);
    while parts.len() < MAX_AGGREGATE && total + size <= 65507
        invariant
            0 < size <= 65527,
            1 <= parts@.len() <= MAX_AGGREGATE,
            total == parts@.len() * size,
            total <= 65527,
            parts@.len() == 1 || total <= 65507,
            parts@.len() - 1 <= all.len(),
            items@ == all.skip(parts@.len() - 1),
            parts@[0] == first,
            forall|i: int|
                0 <= i < parts@.len() ==> contents(#[trigger] parts@[i]).len() == size,
            forall|i: int|
                1 <= i < parts@.len() ==> all[i - 1] == (Transmit::Datagram {
                    source,
                    destination,
                    payload: #[trigger] parts@[i],
                }),
        ensures
            parts@.len() < MAX_AGGREGATE && total + size <= 65507 ==> items@.len() == 0 || !joins(
                items@[0],
                source,
                destination,
                size as int,
            ),
        decreases MAX_AGGREGATE - parts.len(),
    {
        if items.len() == 0 {
            break;
        }
        let next: bool = match &items[0] {
            Transmit::Datagram { source: s, destination: d, payload: p } => *s == source && *d
                == destination && p.len() == size,
            _ => false,
        };
        if !next {
            break;
        }
        let ghost before = items@;
        let ghost had = parts@;
        proof {
            assert((had.len() + 1) * size == had.len() * size + size) by (nonlinear_arith);
        }
        match items.pop_front() {
            Some(Transmit::Datagram { payload, .. }) => {
                parts.push(payload);
                total = total + size;
                proof {
                    assert(before[0] == all[had.len() - 1]);
                    assert(items@ =~= all.skip(had.len() as int));
                    assert forall|i: int| 1 <= i < parts@.len() implies all[i - 1] == (
                    Transmit::Datagram {
                        source,
                        destination,
                        payload: #[trigger] parts@[i],
                    }) by {
                        if i < had.len() {
                            assert(parts@[i] == had[i]);
                        }
                    }
                }
            },
            _ => {
                return ;
            },
        }
    }
    proof {
        let n = parts@.len();
        assert((n + 1) * size == n * size + size) by (nonlinear_arith);
    }
}

/// Calls of the device, and packets that wait for the next of them. `trace` holds
/// the units of each item so far, `next` which item follows each call.
struct Plan {
    actions: Vec<Action>,
    packets: Vec<Bytes>,
    trace: Ghost<Seq<Seq<Unit>>>,
    next: Ghost<Seq<int>>,
}

impl Plan {
    /// Everything so far leaves in order, and no aggregate is too large.
    spec fn wf(self) -> bool {
        &&& flattened(self.trace@) == sent_units(self.actions@) + frame_units(self.packets@)
        &&& forall|i: int|
            0 <= i < self.actions@.len() ==> bounded(#[trigger] self.actions@[i])
        &&& batches_apart(self.actions@)
    }

    /// The last call is no batch, so that waiting packets may become one.
    spec fn open(self) -> bool {
        self.actions@.len() > 0 ==> !(self.actions@.last() is Batch)
    }

    /// The aggregates so far are as large as they can be, and carry none of the items
    /// from `done` on.
    #[verifier::opaque]
    spec fn groups(self, all: Seq<Transmit>, done: int) -> bool {
        &&& grouped(all, self.actions@, self.next@)
        &&& forall|i: int|
            0 <= i < self.actions@.len() && (#[trigger] self.actions@[i]) is Udp ==> self.next@[i]
                <= done
    }

    fn new() -> (r: Plan)
        ensures
            r.wf(),
            r.open(),
            r.trace@.len() == 0,
            forall|all: Seq<Transmit>, done: int| #[trigger] r.groups(all, done),
    {
        let r = Plan {
            actions: Vec::new(),
            packets: Vec::new(),
            trace: Ghost(Seq::empty()),
            next: Ghost(Seq::empty()),
        };
        proof {
            reveal(Plan::groups);
            assert(frame_units(r.packets@) =~= Seq::<Unit>::empty());
            assert(flattened(r.trace@) =~= sent_units(r.actions@) + frame_units(r.packets@));
        }
        r
    }

    /// Adds the packets of one item.
    fn add_packets(&mut self, frames: Vec<Bytes>)
        requires
            old(self).wf(),
        ensures
            final(self).wf(),
            final(self).trace@ == old(self).trace@.push(frame_units(frames@)),
            final(self).actions@ == old(self).actions@,
            final(self).next@ == old(self).next@,
    {
        let ghost had = self.packets@;
        let ghost units = frame_units(frames@);
        let mut frames = frames;
        self.packets.append(&mut frames);
        proof {
            lemma_flattened_push(self.trace@, units);
            assert(frame_units(self.packets@) =~= frame_units(had) + units);
            self.trace = Ghost(self.trace@.push(units));
            assert(flattened(self.trace@) =~= sent_units(self.actions@) + frame_units(
                self.packets@,
            ));
        }
    }

    /// Ends the batch, if there is one.
    fn flush(&mut self, all: Ghost<Seq<Transmit>>, done: Ghost<int>)
        requires
            old(self).wf(),
            old(self).open(),
            old(self).groups(all@, done@),
        ensures
            final(self).wf(),
            final(self).trace@ == old(self).trace@,
            final(self).packets@.len() == 0,
            final(self).groups(all@, done@),
    {
        if self.packets.len() == 0 {
            return;
        }
        let mut packets: Vec<Bytes> = Vec::new();
        packets.append(&mut self.packets);
        let ghost had = self.actions@;
        let ghost batch = packets@;
        self.actions.push(Action::Batch(packets));
        proof {
            assert(batch =~= old(self).packets@);
            lemma_sent_push(had, self.actions@.last());
            assert(self.actions@ =~= had.push(self.actions@.last()));
            self.next = Ghost(self.next@.push(0));
            lemma_groups_push(*old(self), *self, all@, done@, done@, 0);
            assert(frame_units(self.packets@) =~= Seq::<Unit>::empty());
            assert(flattened(self.trace@) =~= sent_units(self.actions@) + frame_units(
                self.packets@,
            ));
        }
    }

    /// Adds a call of its own for one TCP aggregate.
    fn add_tcp(
        &mut self,
        packet: Bytes,
        payload: Vec<Bytes>,
        segment_size: u16,
        all: Ghost<Seq<Transmit>>,
        done: Ghost<int>,
    )
        requires
            old(self).wf(),
            old(self).open(),
            old(self).groups(all@, done@),
        ensures
            final(self).wf(),
            final(self).open(),
            final(self).groups(all@, done@),
            final(self).trace@ == old(self).trace@.push(
                seq![Unit::Tcp(packet, payload@, segment_size)],
            ),
    {
        let ghost units = seq![Unit::Tcp(packet, payload@, segment_size)];
        self.flush(all, done);
        let ghost flushed = *self;
        let ghost had = self.actions@;
        self.actions.push(Action::Tcp { packet, payload, segment_size });
        proof {
            self.next = Ghost(self.next@.push(0));
            lemma_sent_push(had, self.actions@.last());
            assert(self.actions@ =~= had.push(self.actions@.last()));
            lemma_flattened_push(self.trace@, units);
            self.trace = Ghost(self.trace@.push(units));
            lemma_groups_push(flushed, *self, all@, done@, done@, 0);
            assert(frame_units(self.packets@) =~= Seq::<Unit>::empty());
            assert(flattened(self.trace@) =~= sent_units(self.actions@) + frame_units(
                self.packets@,
            ));
        }
    }

    /// Adds a call of its own for datagrams that share a header.
    fn add_udp(
        &mut self,
        header: Bytes,
        parts: Vec<Bytes>,
        size: u16,
        all: Ghost<Seq<Transmit>>,
        next: Ghost<int>,
    )
        requires
            old(self).wf(),
            old(self).open(),
            bounded((Action::Udp { header, parts, size })),
            old(self).groups(all@, next@ - parts@.len()),
            ends_at(all@, (Action::Udp { header, parts, size }), next@),
        ensures
            final(self).wf(),
            final(self).open(),
            final(self).trace@ == old(self).trace@ + part_units(header, parts@, size),
            final(self).groups(all@, next@),
    {
        let ghost shared = parts@;
        let ghost units = shared.map_values(|part: Bytes| Unit::Part(header, part, size));
        let ghost added = part_units(header, shared, size);
        let ghost done = next@ - shared.len();
        self.flush(all, Ghost(done));
        let ghost flushed = *self;
        let ghost had = self.actions@;
        self.actions.push(Action::Udp { header, parts, size });
        proof {
            self.next = Ghost(self.next@.push(next@));
            lemma_sent_push(had, self.actions@.last());
            assert(self.actions@ =~= had.push(self.actions@.last()));
            lemma_flattened_singles(self.trace@, units, added);
            self.trace = Ghost(self.trace@ + added);
            lemma_groups_push(flushed, *self, all@, done, next@, next@);
            assert(frame_units(self.packets@) =~= Seq::<Unit>::empty());
            assert(flattened(self.trace@) =~= sent_units(self.actions@) + frame_units(
                self.packets@,
            ));
        }
    }
}

/// The units of equal datagrams, one for each.
spec fn part_units(header: Bytes, parts: Seq<Bytes>, size: u16) -> Seq<Seq<Unit>> {
    Seq::new(parts.len(), |i: int| seq![Unit::Part(header, parts[i], size)])
}

/// Calls that are grouped stay so while items that need no new call are done.
proof fn lemma_groups_later(before: Plan, after: Plan, all: Seq<Transmit>, done: int, now: int)
    requires
        before.groups(all, done),
        done <= now,
        after.actions@ == before.actions@,
        after.next@ == before.next@,
    ensures
        after.groups(all, now),
{
    reveal(Plan::groups);
}

/// One more call behind some that are grouped.
proof fn lemma_groups_push(
    before: Plan,
    after: Plan,
    all: Seq<Transmit>,
    done: int,
    now: int,
    next: int,
)
    requires
        before.groups(all, done),
        done <= now,
        after.actions@.len() == before.actions@.len() + 1,
        after.actions@.drop_last() =~= before.actions@,
        after.next@ == before.next@.push(next),
        ends_at(all, after.actions@.last(), next),
        after.actions@.last() matches Action::Udp { parts, .. } ==> done + parts@.len() <= next
            <= now,
    ensures
        after.groups(all, now),
{
    reveal(Plan::groups);
    let n = before.actions@.len() as int;
    assert forall|i: int| 0 <= i < n implies #[trigger] after.actions@[i] == before.actions@[i]
        && after.next@[i] == before.next@[i] by {
        assert(after.actions@.drop_last()[i] == before.actions@[i]);
    }
    assert forall|i: int, j: int|
        0 <= i < j < after.actions@.len() && after.actions@[i] is Udp implies ((
    #[trigger] after.actions@[j]) matches Action::Udp { parts, .. } ==> #[trigger] after.next@[i]
        <= after.next@[j] - parts@.len()) by {
        if j == n {
            assert(before.actions@[i] is Udp);
        } else {
            assert(before.next@[i] == after.next@[i]);
        }
    }
}

/// A header that was made for an aggregate is one, and gives its length.
proof fn lemma_shared_header(
    header: Seq<u8>,
    source: SocketAddress,
    destination: SocketAddress,
    total: int,
)
    requires
        8 <= total <= max_datagram(source) + 8,
        header.len() == ip_header_len(source) + 8,
        is_ip_header(
            header.take(ip_header_len(source)),
            udp_ip(source, destination, total),
        ),
        header.skip(ip_header_len(source)) == be_bytes(source.port as int) + be_bytes(
            destination.port as int,
        ) + be_bytes(total) + be_bytes(
            fold(pseudo_sum(source.ip, destination.ip, UDP as int, total)),
        ),
    ensures
        is_shared_header(header, source, destination),
        be16(header, header.len() - 4) == total,
{
    let at = ip_header_len(source);
    let tail = header.skip(at);
    assert(header[at + 4] == tail[4]);
    assert(header[at + 5] == tail[5]);
    let ip = udp_ip(source, destination, total);
    assert(is_ip_header(header.take(at), ip));
}

/// An aggregate that took all that could join it ends where it should.
proof fn lemma_aggregate_ends(
    all: Seq<Transmit>,
    rest: Seq<Transmit>,
    left: Seq<Transmit>,
    parts: Seq<Bytes>,
    size: u16,
    source: SocketAddress,
    destination: SocketAddress,
)
    requires
        rest.len() < all.len(),
        rest == all.skip(all.len() - rest.len()),
        0 < parts.len() <= rest.len() + 1,
        all[all.len() - rest.len() - 1] == (Transmit::Datagram {
            source,
            destination,
            payload: parts[0],
        }),
        left == rest.skip(parts.len() - 1),
        forall|i: int|
            1 <= i < parts.len() ==> rest[i - 1] == (Transmit::Datagram {
                source,
                destination,
                payload: #[trigger] parts[i],
            }),
        is_full(parts.len() as int, size as int) || left.len() == 0 || !joins(
            left[0],
            source,
            destination,
            size as int,
        ),
    ensures
        is_group(all, parts, size, all.len() - left.len(), source, destination),
{
    let next = all.len() - left.len();
    assert forall|k: int| 0 <= k < parts.len() implies all[next - parts.len() + k] == (
    Transmit::Datagram { source, destination, payload: #[trigger] parts[k] }) by {
        if k > 0 {
            assert(rest[k - 1] == all[next - parts.len() + k]);
        }
    }
    if left.len() > 0 {
        assert(left[0] == all[next]);
    }
}

/// Adds a datagram and those behind it that can share its header.
fn plan_aggregate(
    plan: &mut Plan,
    encoder: &mut Encoder,
    items: &mut VecDeque<Transmit>,
    source: SocketAddress,
    destination: SocketAddress,
    payload: Bytes,
    all: Ghost<Seq<Transmit>>,
)
    requires
        old(plan).wf(),
        old(plan).open(),
        old(encoder).wf(),
        old(plan).trace@.len() < all@.len(),
        old(items)@ == all@.skip(old(plan).trace@.len() as int + 1),
        all@[old(plan).trace@.len() as int] == (Transmit::Datagram {
            source,
            destination,
            payload,
        }),
        old(plan).groups(all@, old(plan).trace@.len() as int),
        carried(all@, old(plan).trace@, old(encoder).spec_mtu(), true),
        aggregable(
            old(encoder).spec_mtu(),
            true,
            source,
            destination,
            contents(payload).len() as int,
        ),
    ensures
        final(plan).wf(),
        final(plan).open(),
        final(encoder).wf(),
        final(encoder).spec_mtu() == old(encoder).spec_mtu(),
        final(plan).trace@.len() <= all@.len(),
        final(items)@ == all@.skip(final(plan).trace@.len() as int),
        final(items)@.len() <= old(items)@.len(),
        final(plan).groups(all@, final(plan).trace@.len() as int),
        carried(all@, final(plan).trace@, old(encoder).spec_mtu(), true),
{
    let size: usize = payload.len();
    let ghost rest = items@;
    let mut parts: Vec<Bytes> = Vec::new();
    parts.push(payload);
    proof {
        encoder.lemma_offload_bound(source, destination, size as int);
    }
    gather(items, &mut parts, source, destination, size);
    proof {
        assert(items@ =~= all@.skip((plan.trace@.len() + parts@.len()) as int));
        lemma_aggregate_ends(all@, rest, items@, parts@, size as u16, source, destination);
    }
    add_aggregate(plan, encoder, source, destination, parts, size as u16, all);
}

/// Adds datagrams that share a header.
fn add_aggregate(
    plan: &mut Plan,
    encoder: &mut Encoder,
    source: SocketAddress,
    destination: SocketAddress,
    parts: Vec<Bytes>,
    size: u16,
    all: Ghost<Seq<Transmit>>,
)
    requires
        old(plan).wf(),
        old(plan).open(),
        old(encoder).wf(),
        old(plan).groups(all@, old(plan).trace@.len() as int),
        carried(all@, old(plan).trace@, old(encoder).spec_mtu(), true),
        aggregable(old(encoder).spec_mtu(), true, source, destination, size as int),
        1 <= parts@.len() <= MAX_AGGREGATE,
        parts@.len() == 1 || parts@.len() * size <= 65507,
        forall|i: int| 0 <= i < parts@.len() ==> contents(#[trigger] parts@[i]).len() == size,
        is_group(
            all@,
            parts@,
            size,
            (old(plan).trace@.len() + parts@.len()) as int,
            source,
            destination,
        ),
    ensures
        final(plan).wf(),
        final(plan).open(),
        final(encoder).wf(),
        final(encoder).spec_mtu() == old(encoder).spec_mtu(),
        final(plan).trace@.len() == old(plan).trace@.len() + parts@.len(),
        final(plan).groups(all@, final(plan).trace@.len() as int),
        carried(all@, final(plan).trace@, old(encoder).spec_mtu(), true),
{
    let header = shared_header(encoder, source, destination, size as usize, parts.len());
    let ghost next = plan.trace@.len() + parts@.len();
    proof {
        lemma_parts_carry(
            header,
            parts@,
            size,
            source,
            destination,
            all@,
            plan.trace@,
            encoder.spec_mtu(),
        );
    }
    plan.add_udp(header, parts, size, all, Ghost(next as int));
}

/// The header of an aggregate.
fn shared_header(
    encoder: &mut Encoder,
    source: SocketAddress,
    destination: SocketAddress,
    size: usize,
    count: usize,
) -> (r: Bytes)
    requires
        old(encoder).wf(),
        aggregable(old(encoder).spec_mtu(), true, source, destination, size as int),
        1 <= count <= MAX_AGGREGATE,
        count == 1 || count * size <= 65507,
    ensures
        final(encoder).wf(),
        final(encoder).spec_mtu() == old(encoder).spec_mtu(),
        is_shared_header(contents(r), source, destination),
        contents(r).len() >= 28,
        be16(contents(r), contents(r).len() - 4) == 8 + count * size,
{
    proof {
        encoder.lemma_offload_bound(source, destination, size as int);
        assert(size * count == count * size) by (nonlinear_arith);
        assert(1 * size == size);
    }
    let total: usize = size * count;
    match encoder.header(source, destination, size, total) {
        Some(header) => {
            proof {
                lemma_shared_header(contents(header), source, destination, 8 + total);
            }
            header
        },
        None => from_vec(Vec::new()),
    }
}

/// The parts of an aggregate carry their items.
proof fn lemma_parts_carry(
    header: Bytes,
    parts: Seq<Bytes>,
    size: u16,
    source: SocketAddress,
    destination: SocketAddress,
    all: Seq<Transmit>,
    before: Seq<Seq<Unit>>,
    mtu: int,
)
    requires
        aggregable(mtu, true, source, destination, size as int),
        is_shared_header(contents(header), source, destination),
        carried(all, before, mtu, true),
        before.len() + parts.len() <= all.len(),
        forall|i: int| 0 <= i < parts.len() ==> contents(#[trigger] parts[i]).len() == size,
        forall|i: int|
            0 <= i < parts.len() ==> all[before.len() + i] == (Transmit::Datagram {
                source,
                destination,
                payload: #[trigger] parts[i],
            }),
    ensures
        carried(all, before + part_units(header, parts, size), mtu, true),
{
    reveal(carried);
    let units = part_units(header, parts, size);
    let after = before + units;
    assert forall|i: int| 0 <= i < after.len() implies carries(
        #[trigger] all[i],
        after[i],
        mtu,
        true,
    ) by {
        if i >= before.len() {
            let k = i - before.len();
            assert(after[i] == units[k]);
            assert(contents(parts[k]).len() == size);
        }
    }
}

/// Adds the frames of a datagram, if it has a form on the wire.
fn plan_frames(
    plan: &mut Plan,
    encoder: &mut Encoder,
    source: SocketAddress,
    destination: SocketAddress,
    payload: &Bytes,
    udp_gso: bool,
)
    requires
        old(plan).wf(),
        old(encoder).wf(),
        !aggregable(
            old(encoder).spec_mtu(),
            udp_gso,
            source,
            destination,
            contents(*payload).len() as int,
        ),
    ensures
        final(plan).wf(),
        final(encoder).wf(),
        final(encoder).spec_mtu() == old(encoder).spec_mtu(),
        final(plan).trace@.len() == old(plan).trace@.len() + 1,
        final(plan).trace@.drop_last() == old(plan).trace@,
        final(plan).actions@ == old(plan).actions@,
        final(plan).next@ == old(plan).next@,
        carries(
            (Transmit::Datagram { source, destination, payload: *payload }),
            final(plan).trace@.last(),
            old(encoder).spec_mtu(),
            udp_gso,
        ),
{
    let bytes = as_slice(payload);
    let frames = match encoder.encode(source, destination, bytes) {
        Some(frames) => frames,
        None => Vec::new(),
    };
    let ghost sent = frames@;
    plan.add_packets(frames);
    proof {
        assert(plan.trace@.drop_last() =~= old(plan).trace@);
        let units = frame_units(sent);
        if encodable(source, destination, bytes@.len() as int) {
            let id = choose|id: u32|
                is_framed(
                    sent,
                    old(encoder).spec_mtu(),
                    source,
                    destination,
                    udp_bytes(source, destination, bytes@),
                    id,
                );
            assert(is_framed(
                sent,
                old(encoder).spec_mtu(),
                source,
                destination,
                udp_bytes(source, destination, contents(*payload)),
                id,
            ));
        }
    }
}

/// The items so far are carried by their units.
#[verifier::opaque]
spec fn carried(
    all: Seq<Transmit>,
    trace: Seq<Seq<Unit>>,
    mtu: int,
    udp_gso: bool,
) -> bool {
    forall|i: int| 0 <= i < trace.len() ==> carries(#[trigger] all[i], trace[i], mtu, udp_gso)
}

/// One more item is carried by its units.
proof fn lemma_carried_push(
    all: Seq<Transmit>,
    before: Seq<Seq<Unit>>,
    after: Seq<Seq<Unit>>,
    mtu: int,
    udp_gso: bool,
)
    requires
        carried(all, before, mtu, udp_gso),
        after.len() == before.len() + 1,
        after.drop_last() =~= before,
        carries(all[before.len() as int], after.last(), mtu, udp_gso),
    ensures
        carried(all, after, mtu, udp_gso),
{
    reveal(carried);
    assert forall|i: int| 0 <= i < after.len() implies carries(
        #[trigger] all[i],
        after[i],
        mtu,
        udp_gso,
    ) by {
        if i < before.len() {
            assert(after.drop_last()[i] == before[i]);
        }
    }
}

/// Adds an item that is no datagram, or a datagram and those behind it that can share
/// its header.
fn plan_item(
    plan: &mut Plan,
    encoder: &mut Encoder,
    items: &mut VecDeque<Transmit>,
    item: Transmit,
    udp_gso: bool,
    all: Ghost<Seq<Transmit>>,
)
    requires
        old(plan).wf(),
        old(plan).open(),
        old(encoder).wf(),
        old(plan).trace@.len() < all@.len(),
        item == all@[old(plan).trace@.len() as int],
        old(items)@ == all@.skip(old(plan).trace@.len() as int + 1),
        old(plan).groups(all@, old(plan).trace@.len() as int),
        carried(all@, old(plan).trace@, old(encoder).spec_mtu(), udp_gso),
    ensures
        final(plan).wf(),
        final(plan).open(),
        final(encoder).wf(),
        final(encoder).spec_mtu() == old(encoder).spec_mtu(),
        final(plan).trace@.len() <= all@.len(),
        final(items)@ == all@.skip(final(plan).trace@.len() as int),
        final(items)@.len() <= old(items)@.len(),
        final(plan).groups(all@, final(plan).trace@.len() as int),
        carried(all@, final(plan).trace@, old(encoder).spec_mtu(), udp_gso),
{
    let ghost mtu = encoder.spec_mtu();
    let ghost before = *plan;
    let ghost started = plan.trace@;
    let ghost done = started.len() as int;
    match item {
        Transmit::Packet(packet) => {
            let mut one: Vec<Bytes> = Vec::new();
            one.push(packet);
            assert(frame_units(one@) =~= seq![Unit::Frame(packet)]);
            plan.add_packets(one);
            proof {
                lemma_groups_later(before, *plan, all@, done, done + 1);
                lemma_carried_push(all@, started, plan.trace@, mtu, udp_gso);
            }
        },
        Transmit::TcpGso { packet, payload, segment_size } => {
            plan.add_tcp(packet, payload, segment_size, all, Ghost(done));
            proof {
                lemma_groups_later(*plan, *plan, all@, done, done + 1);
                lemma_carried_push(all@, started, plan.trace@, mtu, udp_gso);
            }
        },
        Transmit::Datagram { source, destination, payload } => {
            let size: usize = payload.len();
            if udp_gso && size != 0 && encoder.can_offload(source, destination, size) {
                plan_aggregate(plan, encoder, items, source, destination, payload, all);
            } else {
                plan_frames(plan, encoder, source, destination, &payload, udp_gso);
                proof {
                    lemma_groups_later(before, *plan, all@, done, done + 1);
                    lemma_carried_push(all@, started, plan.trace@, mtu, udp_gso);
                }
            }
        },
    }
}

/// Plans the calls of the device for some queued items. Packets are sent in
/// batches; a TCP aggregate has a call of its own; where the device can cut
/// datagrams, equal ones in a row share a header. The order of the items stays.
pub fn plan(encoder: &mut Encoder, items: VecDeque<Transmit>, udp_gso: bool) -> (r: Vec<Action>)
    requires
        old(encoder).wf(),
    ensures
        final(encoder).wf(),
        final(encoder).spec_mtu() == old(encoder).spec_mtu(),
        planned(items@, r@, old(encoder).spec_mtu(), udp_gso),
        forall|i: int| 0 <= i < r@.len() ==> bounded(#[trigger] r@[i]),
        batches_apart(r@),
        exists|next: Seq<int>| grouped(items@, r@, next),
{
    let ghost all = items@;
    let ghost mtu = encoder.spec_mtu();
    let mut items = items;
    let mut plan = Plan::new();
    proof {
        reveal(carried);
        assert(all.skip(0) =~= all);
    }
    while items.len() > 0
        invariant
            encoder.wf(),
            encoder.spec_mtu() == mtu,
            plan.wf(),
            plan.open(),
            plan.groups(all, plan.trace@.len() as int),
            plan.trace@.len() <= all.len(),
            items@ == all.skip(plan.trace@.len() as int),
            carried(all, plan.trace@, mtu, udp_gso),
        decreases items@.len(),
    {
        let ghost done = plan.trace@.len() as int;
        if let Some(item) = items.pop_front() {
            proof {
                assert(item == all[done]);
                assert(items@ =~= all.skip(done + 1));
            }
            plan_item(&mut plan, encoder, &mut items, item, udp_gso, Ghost(all));
        }
    }
    plan.flush(Ghost(all), Ghost(all.len() as int));
    proof {
        reveal(Plan::groups);
        reveal(carried);
        assert(grouped(all, plan.actions@, plan.next@));
        assert(frame_units(plan.packets@) =~= Seq::<Unit>::empty());
        assert(flattened(plan.trace@) =~= sent_units(plan.actions@));
        assert(plan.trace@.len() == all.len());
    }
    plan.actions
}

/// One unit for each of some items.
proof fn lemma_flattened_singles(
    trace: Seq<Seq<Unit>>,
    units: Seq<Unit>,
    added: Seq<Seq<Unit>>,
)
    requires
        added.len() == units.len(),
        forall|i: int| 0 <= i < units.len() ==> #[trigger] added[i] =~= seq![units[i]],
    ensures
        flattened(trace + added) == flattened(trace) + units,
    decreases units.len(),
{
    if units.len() == 0 {
        assert(trace + added =~= trace);
        assert(flattened(trace) + units =~= flattened(trace));
    } else {
        let n = units.len() - 1;
        lemma_flattened_singles(trace, units.drop_last(), added.drop_last());
        assert((trace + added).drop_last() =~= trace + added.drop_last());
        assert(flattened(trace + added) =~= flattened(trace) + units);
    }
}

/// What a writer has sent. The counters stop at their largest value.
#[derive(Clone, Copy, Debug, PartialEq, Eq, Structural)]
pub struct Sent {
    pub packets: u64,
    pub bytes: u64,
}

/// A count that fits its counter.
pub open spec fn counted(n: int) -> u64 {
    if n > u64::MAX {
        u64::MAX
    } else {
        n as u64
    }
}

/// How many packets a call of the device sends.
pub open spec fn packets_of(action: Action) -> int {
    match action {
        Action::Batch(packets) => packets@.len() as int,
        Action::Tcp { .. } => 1,
        Action::Udp { parts, .. } => parts@.len() as int,
    }
}

/// How many bytes a call of the device sends; datagrams have a header each.
pub open spec fn bytes_of(action: Action) -> int {
    match action {
        Action::Batch(packets) => total_len(packets@),
        Action::Tcp { packet, payload, .. } => contents(packet).len() + total_len(payload@),
        Action::Udp { header, parts, size } => (contents(header).len() + size) * parts@.len(),
    }
}

/// Adds the lengths of some views to a counter.
fn add_lengths(start: u64, parts: &Vec<Bytes>) -> (r: u64)
    ensures
        r == counted(start + total_len(parts@)),
{
    let mut sum: u64 = start;
    let mut i: usize = 0;
    assert(parts@.take(0) =~= Seq::<Bytes>::empty());
    while i < parts.len()
        invariant
            i <= parts@.len(),
            sum == counted(start + total_len(parts@.take(i as int))),
        decreases parts@.len() - i,
    {
        proof {
            assert(parts@.take(i as int + 1).drop_last() =~= parts@.take(i as int));
            lemma_total_len(parts@.take(i as int), 0);
        }
        sum = sum.saturating_add(parts[i].len() as u64);
        i = i + 1;
    }
    assert(parts@.take(i as int) =~= parts@);
    sum
}

impl Sent {
    pub fn new() -> (r: Sent)
        ensures
            r == (Sent { packets: 0, bytes: 0 }),
    {
        Sent { packets: 0, bytes: 0 }
    }

    /// Counts a call of the device that has succeeded.
    pub fn record(&mut self, action: &Action)
        ensures
            final(self).packets == counted(old(self).packets + packets_of(*action)),
            final(self).bytes == counted(old(self).bytes + bytes_of(*action)),
    {
        match action {
            Action::Batch(packets) => {
                self.packets = self.packets.saturating_add(packets.len() as u64);
                self.bytes = add_lengths(self.bytes, packets);
            },
            Action::Tcp { packet, payload, .. } => {
                proof {
                    lemma_total_len(payload@, 0);
                }
                self.packets = self.packets.saturating_add(1);
                self.bytes = add_lengths(
                    self.bytes.saturating_add(packet.len() as u64),
                    payload,
                );
            },
            Action::Udp { header, parts, size } => {
                let each: u64 = (header.len() as u64).saturating_add(*size as u64);
                let count: u64 = parts.len() as u64;
                proof {
                    lemma_saturated_product(
                        self.bytes as int,
                        contents(*header).len() + *size,
                        count as int,
                    );
                }
                proof {
                    assert(each * count <= 0xffff_ffff_ffff_ffff * 0xffff_ffff_ffff_ffff)
                        by (nonlinear_arith)
                        requires
                            0 <= each <= 0xffff_ffff_ffff_ffff,
                            0 <= count <= 0xffff_ffff_ffff_ffff,
                    ;
                }
                let product: u128 = each as u128 * count as u128;
                let bytes: u64 = if product > u64::MAX as u128 {
                    u64::MAX
                } else {
                    product as u64
                };
                self.packets = self.packets.saturating_add(count);
                self.bytes = self.bytes.saturating_add(bytes);
            },
        }
    }
}

/// Counting a product in two steps.
proof fn lemma_saturated_product(start: int, each: int, count: int)
    requires
        0 <= start,
        0 <= each,
        0 <= count,
    ensures
        counted(start + counted(counted(each) * count)) == counted(start + each * count),
        counted(each) * count >= 0,
{
    assert(counted(each) * count >= 0) by (nonlinear_arith)
        requires
            count >= 0,
            counted(each) >= 0,
    ;
    if each > u64::MAX {
        if count == 0 {
            assert(each * count == 0) by (nonlinear_arith)
                requires
                    count == 0,
            ;
        } else {
            assert(each * count >= each) by (nonlinear_arith)
                requires
                    count >= 1,
                    each >= 0,
            ;
            assert(u64::MAX * count >= u64::MAX) by (nonlinear_arith)
                requires
                    count >= 1,
            ;
        }
    }
}

/// Why an endpoint does not start.
#[derive(Clone, Copy, Debug, PartialEq, Eq, Structural)]
pub enum SetupError {
    Mtu,
    NoQueue,
}

impl SetupError {
    pub fn message(&self) -> (r: &'static str)
        ensures
            r@ == match *self {
                SetupError::Mtu => "TUN MTU must be between 1280 and 65535"@,
                SetupError::NoQueue => "TUN needs at least one queue"@,
            },
    {
        match self {
            SetupError::Mtu => "TUN MTU must be between 1280 and 65535",
            SetupError::NoQueue => "TUN needs at least one queue",
        }
    }
}

/// What happens to an endpoint from outside or from its workers.
#[derive(Clone, Copy, Debug, PartialEq, Eq, Structural)]
pub enum Notice {
    /// The endpoint is told to stop at once.
    Cancelled,
    /// A worker has observed the shutdown and removed its last connection.
    Drained,
    /// A worker has ended without an error.
    WorkerStopped,
    /// A worker has failed.
    WorkerFailed,
    /// There is no worker left.
    NoWorker,
}

/// What the endpoint does next.
#[derive(Clone, Copy, Debug, PartialEq, Eq, Structural)]
pub enum Verdict {
    Wait,
    StopWorkers,
    Finish,
    Fail(Failure),
}

/// Why an endpoint fails.
#[derive(Clone, Copy, Debug, PartialEq, Eq, Structural)]
pub enum Failure {
    NoWorkers,
    WorkerFailed,
    WorkerStoppedEarly,
}

impl Failure {
    pub fn message(&self) -> (r: &'static str)
        ensures
            r@ == match *self {
                Failure::NoWorkers => "TUN has no workers"@,
                Failure::WorkerFailed => "TUN worker failed"@,
                Failure::WorkerStoppedEarly => "TUN worker stopped before shutdown"@,
            },
    {
        match self {
            Failure::NoWorkers => "TUN has no workers",
            Failure::WorkerFailed => "TUN worker failed",
            Failure::WorkerStoppedEarly => "TUN worker stopped before shutdown",
        }
    }
}

/// Owns the queue workers until every worker has drained or the endpoint is
/// cancelled. `remaining` workers have yet to drain.
#[derive(Clone, Copy, Debug, PartialEq, Eq, Structural)]
pub struct Supervisor {
    pub remaining: usize,
    pub stopping: bool,
}

/// The supervisor for the workers of some queues, or why there is none.
pub open spec fn setup(queues: usize, mtu: usize) -> Result<Supervisor, SetupError> {
    if !(1280 <= mtu <= 65535) {
        Err(SetupError::Mtu)
    } else if queues == 0 {
        Err(SetupError::NoQueue)
    } else {
        Ok(Supervisor { remaining: queues, stopping: false })
    }
}

impl Supervisor {
    /// Workers are stopped exactly when all of them have drained.
    pub open spec fn wf(self) -> bool {
        self.stopping == (self.remaining == 0)
    }

    /// The next state and what to do. A worker may end only after all workers
    /// have been told to stop.
    pub open spec fn after(self, notice: Notice) -> (Supervisor, Verdict) {
        if notice == Notice::Cancelled {
            (self, Verdict::Finish)
        } else if notice == Notice::WorkerFailed {
            (self, Verdict::Fail(Failure::WorkerFailed))
        } else if self.stopping {
            (
                self,
                if notice == Notice::NoWorker {
                    Verdict::Finish
                } else {
                    Verdict::Wait
                },
            )
        } else if notice == Notice::Drained {
            let next = Supervisor {
                remaining: (self.remaining - 1) as usize,
                stopping: self.remaining == 1,
            };
            (
                next,
                if next.stopping {
                    Verdict::StopWorkers
                } else {
                    Verdict::Wait
                },
            )
        } else if notice == Notice::NoWorker {
            (self, Verdict::Fail(Failure::NoWorkers))
        } else {
            (self, Verdict::Fail(Failure::WorkerStoppedEarly))
        }
    }

    /// A supervisor for the workers of some queues. Queue membership stays fixed,
    /// so that flows and fragments do not change their owner.
    pub fn new(queues: usize, mtu: usize) -> (r: Result<Supervisor, SetupError>)
        ensures
            r == setup(queues, mtu),
            r matches Ok(supervisor) ==> supervisor.wf(),
    {
        if mtu < 1280 || mtu > 65535 {
            return Err(SetupError::Mtu);
        }
        if queues == 0 {
            return Err(SetupError::NoQueue);
        }
        Ok(Supervisor { remaining: queues, stopping: false })
    }

    /// Takes notice of an event.
    pub fn on(&mut self, notice: Notice) -> (r: Verdict)
        requires
            old(self).wf(),
        ensures
            final(self).wf(),
            (*final(self), r) == old(self).after(notice),
    {
        match notice {
            Notice::Cancelled => Verdict::Finish,
            Notice::WorkerFailed => Verdict::Fail(Failure::WorkerFailed),
            Notice::Drained => {
                if self.stopping {
                    return Verdict::Wait;
                }
                self.remaining = self.remaining - 1;
                self.stopping = self.remaining == 0;
                if self.stopping {
                    Verdict::StopWorkers
                } else {
                    Verdict::Wait
                }
            },
            Notice::NoWorker => {
                if self.stopping {
                    Verdict::Finish
                } else {
                    Verdict::Fail(Failure::NoWorkers)
                }
            },
            Notice::WorkerStopped => {
                if self.stopping {
                    Verdict::Wait
                } else {
                    Verdict::Fail(Failure::WorkerStoppedEarly)
                }
            },
        }
    }
}

/// The state after some workers have drained one after another.
pub open spec fn drained(s: Supervisor, count: nat) -> Supervisor
    decreases count,
{
    if count == 0 {
        s
    } else {
        drained(s, (count - 1) as nat).after(Notice::Drained).0
    }
}

/// Workers are told to stop when the last of them has drained, and not before.
pub proof fn law_stop_follows_the_last_drain(s: Supervisor, count: nat)
    requires
        s.wf(),
        !s.stopping,
        count <= s.remaining,
    ensures
        drained(s, count).remaining == s.remaining - count,
        drained(s, count).wf(),
        drained(s, count).stopping <==> count == s.remaining,
    decreases count,
{
    if count > 0 {
        law_stop_follows_the_last_drain(s, (count - 1) as nat);
    }
}

/// The device cuts a datagram out of an aggregate exactly where it can, the datagram is not
/// empty and has a form on the wire, and fits the link by itself, behind its headers.
pub proof fn law_datagrams_share_a_header_where_they_fit(
    mtu: int,
    udp_gso: bool,
    source: SocketAddress,
    destination: SocketAddress,
    len: int,
)
    requires
        0 <= len,
        1280 <= mtu <= 65535,
    ensures
        aggregable(mtu, udp_gso, source, destination, len) <==> {
            &&& udp_gso
            &&& len > 0
            &&& encodable(source, destination, len)
            &&& source.ip is V4 ==> 20 + 8 + len <= mtu
            &&& source.ip is V6 ==> 40 + 8 + len <= mtu
        },
{
}

/// An aggregate takes another datagram as long as it has fewer than sixty-four and all of
/// them fit one IPv4 datagram; only one between the same ends and of the same size joins.
pub proof fn law_aggregates_are_filled(
    parts: int,
    size: int,
    item: Transmit,
    source: SocketAddress,
    destination: SocketAddress,
)
    ensures
        !is_full(parts, size) <==> parts < 64 && 20 + 8 + (parts + 1) * size <= 65535,
        joins(item, source, destination, size) <==> (item matches Transmit::Datagram {
            source: from,
            destination: to,
            payload,
        } && from == source && to == destination && contents(payload).len() == size),
{
}

/// The units of some items start with those of the first ones.
proof fn lemma_flattened_split(trace: Seq<Seq<Unit>>, i: int)
    requires
        0 <= i < trace.len(),
    ensures
        flattened(trace.take(i)).len() + trace[i].len() <= flattened(trace).len(),
        forall|k: int|
            0 <= k < trace[i].len() ==> #[trigger] flattened(trace)[flattened(trace.take(i)).len()
                + k] == trace[i][k],
    decreases trace.len(),
{
    let rest = trace.drop_last();
    if i < trace.len() - 1 {
        lemma_flattened_split(rest, i);
        assert(rest.take(i) =~= trace.take(i));
        assert(rest[i] == trace[i]);
    } else {
        assert(trace.take(i) =~= rest);
    }
}

/// The units of fewer items are no more.
proof fn lemma_flattened_grows(trace: Seq<Seq<Unit>>, i: int, j: int)
    requires
        0 <= i < j <= trace.len(),
    ensures
        flattened(trace.take(i)).len() + trace[i].len() <= flattened(trace.take(j)).len(),
{
    lemma_flattened_split(trace.take(j), i);
    assert(trace.take(j).take(i) =~= trace.take(i));
    assert(trace.take(j)[i] == trace[i]);
}

/// Nothing that was queued is left out: a packet and a TCP aggregate leave as they are,
/// and a datagram that has a form on the wire leaves as a part of an aggregate between its
/// ends, or as its frames.
pub proof fn law_every_item_is_sent(
    items: Seq<Transmit>,
    actions: Seq<Action>,
    mtu: int,
    udp_gso: bool,
    i: int,
)
    requires
        planned(items, actions, mtu, udp_gso),
        0 <= i < items.len(),
    ensures
        ({
            let sent = sent_units(actions);
            match items[i] {
                Transmit::Packet(packet) => sent.contains(Unit::Frame(packet)),
                Transmit::TcpGso { packet, payload, segment_size } => sent.contains(
                    Unit::Tcp(packet, payload@, segment_size),
                ),
                Transmit::Datagram { source, destination, payload } => {
                    let len = contents(payload).len() as int;
                    if aggregable(mtu, udp_gso, source, destination, len) {
                        exists|header: Bytes| #[trigger]
                            sent.contains(Unit::Part(header, payload, len as u16))
                                && is_shared_header(contents(header), source, destination)
                    } else {
                        encodable(source, destination, len) ==> exists|frames: Seq<Bytes>, id: u32|
                            #[trigger]
                            is_framed(
                                frames,
                                mtu,
                                source,
                                destination,
                                udp_bytes(source, destination, contents(payload)),
                                id,
                            ) && (forall|k: int|
                                0 <= k < frames.len() ==> sent.contains(
                                    Unit::Frame(#[trigger] frames[k]),
                                ))
                    }
                },
            }
        }),
{
    let trace = choose|trace: Seq<Seq<Unit>>|
        #![trigger flattened(trace)]
        trace.len() == items.len() && flattened(trace) == sent_units(actions) && (forall|k: int|
            0 <= k < items.len() ==> carries(#[trigger] items[k], trace[k], mtu, udp_gso));
    let sent = sent_units(actions);
    assert(carries(items[i], trace[i], mtu, udp_gso));
    lemma_flattened_split(trace, i);
    let at = flattened(trace.take(i)).len() as int;
    assert forall|k: int| 0 <= k < trace[i].len() implies #[trigger] sent.contains(trace[i][k]) by {
        assert(sent[at + k] == trace[i][k]);
    }
    match items[i] {
        Transmit::Packet(packet) => {
            assert(trace[i][0] == Unit::Frame(packet));
        },
        Transmit::TcpGso { packet, payload, segment_size } => {
            assert(trace[i][0] == Unit::Tcp(packet, payload@, segment_size));
        },
        Transmit::Datagram { source, destination, payload } => {
            let bytes = contents(payload);
            if aggregable(mtu, udp_gso, source, destination, bytes.len() as int) {
                let header = trace[i][0]->Part_0;
                assert(trace[i][0] == Unit::Part(header, payload, bytes.len() as u16));
                assert(sent.contains(Unit::Part(header, payload, bytes.len() as u16)));
            } else if encodable(source, destination, bytes.len() as int) {
                let (frames, id) = choose|frames: Seq<Bytes>, id: u32|
                    #![trigger is_framed(
                        frames,
                        mtu,
                        source,
                        destination,
                        udp_bytes(source, destination, bytes),
                        id,
                    )]
                    trace[i] =~= frame_units(frames) && is_framed(
                        frames,
                        mtu,
                        source,
                        destination,
                        udp_bytes(source, destination, bytes),
                        id,
                    );
                assert forall|k: int| 0 <= k < frames.len() implies sent.contains(
                    Unit::Frame(#[trigger] frames[k]),
                ) by {
                    assert(trace[i][k] == Unit::Frame(frames[k]));
                }
            }
        },
    }
}

/// Packets leave in the order in which they were queued, whatever is queued between them.
pub proof fn law_packets_leave_in_order(
    items: Seq<Transmit>,
    actions: Seq<Action>,
    mtu: int,
    udp_gso: bool,
    i: int,
    j: int,
)
    requires
        planned(items, actions, mtu, udp_gso),
        0 <= i < j < items.len(),
        items[i] is Packet,
        items[j] is Packet,
    ensures
        exists|a: int, b: int|
            0 <= a < b < sent_units(actions).len() && #[trigger] sent_units(actions)[a]
                == Unit::Frame(items[i]->Packet_0) && #[trigger] sent_units(actions)[b]
                == Unit::Frame(items[j]->Packet_0),
{
    let trace = choose|trace: Seq<Seq<Unit>>|
        #![trigger flattened(trace)]
        trace.len() == items.len() && flattened(trace) == sent_units(actions) && (forall|k: int|
            0 <= k < items.len() ==> carries(#[trigger] items[k], trace[k], mtu, udp_gso));
    let sent = sent_units(actions);
    assert(carries(items[i], trace[i], mtu, udp_gso));
    assert(carries(items[j], trace[j], mtu, udp_gso));
    lemma_flattened_split(trace, i);
    lemma_flattened_split(trace, j);
    lemma_flattened_grows(trace, i, j);
    let a = flattened(trace.take(i)).len() as int;
    let b = flattened(trace.take(j)).len() as int;
    assert(sent[a + 0] == trace[i][0]);
    assert(sent[b + 0] == trace[j][0]);
    assert(sent[a] == Unit::Frame(items[i]->Packet_0));
    assert(sent[b] == Unit::Frame(items[j]->Packet_0));
}

/// A unit leaves by a call of its kind: a frame in a batch that holds it, a TCP aggregate in
/// a call of its own, a part of an aggregate under the header that it shares.
pub proof fn law_units_leave_by_their_calls(actions: Seq<Action>, unit: Unit)
    requires
        sent_units(actions).contains(unit),
    ensures
        exists|k: int|
            0 <= k < actions.len() && match unit {
                Unit::Frame(packet) => #[trigger] actions[k] matches Action::Batch(packets)
                    && packets@.contains(packet),
                Unit::Tcp(packet, payload, segment_size) => actions[k] matches Action::Tcp {
                    packet: p,
                    payload: parts,
                    segment_size: size,
                } && p == packet && parts@ == payload && size == segment_size,
                Unit::Part(header, part, size) => actions[k] matches Action::Udp {
                    header: h,
                    parts,
                    size: s,
                } && h == header && s == size && parts@.contains(part),
            },
    decreases actions.len(),
{
    let rest = actions.drop_last();
    let last = actions.last();
    let i = choose|i: int| 0 <= i < sent_units(actions).len() && sent_units(actions)[i] == unit;
    let n = sent_units(rest).len() as int;
    if i < n {
        assert(sent_units(rest)[i] == unit);
        assert(sent_units(rest).contains(unit));
        law_units_leave_by_their_calls(rest, unit);
        let k = choose|k: int|
            0 <= k < rest.len() && match unit {
                Unit::Frame(packet) => #[trigger] rest[k] matches Action::Batch(packets)
                    && packets@.contains(packet),
                Unit::Tcp(packet, payload, segment_size) => rest[k] matches Action::Tcp {
                    packet: p,
                    payload: parts,
                    segment_size: size,
                } && p == packet && parts@ == payload && size == segment_size,
                Unit::Part(header, part, size) => rest[k] matches Action::Udp {
                    header: h,
                    parts,
                    size: s,
                } && h == header && s == size && parts@.contains(part),
            };
        assert(actions[k] == rest[k]);
    } else {
        let units = action_units(last);
        assert(units[i - n] == unit);
        let k = actions.len() - 1;
        assert(actions[k] == last);
        match last {
            Action::Batch(packets) => {
                assert(units[i - n] == Unit::Frame(packets@[i - n]));
            },
            Action::Tcp { packet, payload, segment_size } => {},
            Action::Udp { header, parts, size } => {
                assert(units[i - n] == Unit::Part(header, parts@[i - n], size));
            },
        }
    }
}

/// A writer counts what it sends: every packet of a batch, a TCP aggregate as one, and
/// every datagram of an aggregate, each with the header that it will have; and all of
/// their bytes.
pub proof fn law_sent_packets_are_counted(action: Action)
    requires
        bounded(action),
    ensures
        packets_of(action) == action_units(action).len(),
        action matches Action::Udp { header, parts, size } ==> bytes_of(action)
            == contents(header).len() * parts@.len() + total_len(parts@),
        action matches Action::Batch(packets) ==> bytes_of(action) == total_len(packets@),
        action matches Action::Tcp { packet, payload, segment_size } ==> bytes_of(action)
            == contents(packet).len() + total_len(payload@),
{
    if let Action::Udp { header, parts, size } = action {
        lemma_equal_parts(parts@, size as int);
        assert((contents(header).len() + size) * parts@.len() == contents(header).len()
            * parts@.len() + parts@.len() * size) by (nonlinear_arith);
    }
}

proof fn lemma_equal_parts(parts: Seq<Bytes>, size: int)
    requires
        forall|i: int| 0 <= i < parts.len() ==> contents(#[trigger] parts[i]).len() == size,
    ensures
        total_len(parts) == parts.len() * size,
    decreases parts.len(),
{
    if parts.len() > 0 {
        lemma_equal_parts(parts.drop_last(), size);
        assert(parts.len() * size == (parts.len() - 1) * size + size) by (nonlinear_arith);
    } else {
        assert(parts.len() * size == 0) by (nonlinear_arith)
            requires
                parts.len() == 0,
        ;
    }
}

/// Counters add up until they are full, and then stay so.
pub proof fn law_counters_stop_when_full(count: u64, more: int)
    requires
        0 <= more,
    ensures
        count + more <= u64::MAX ==> counted(count + more) == count + more,
        count + more > u64::MAX ==> counted(count + more) == u64::MAX,
        counted(count + more) >= count,
{
}

/// An endpoint ends at once when it is told to, and fails at once when a worker does. A
/// worker may end only after all of them have drained; from then on the endpoint waits
/// until none is left, and ends.
pub proof fn law_endpoints_end_in_order(s: Supervisor, notice: Notice)
    requires
        s.wf(),
    ensures
        ({
            let (next, verdict) = s.after(notice);
            &&& verdict is Finish <==> notice is Cancelled || (notice is NoWorker && s.remaining
                == 0)
            &&& verdict == Verdict::Fail(Failure::WorkerFailed) <==> notice is WorkerFailed
            &&& verdict == Verdict::Fail(Failure::WorkerStoppedEarly) <==> notice is WorkerStopped
                && s.remaining > 0
            &&& verdict == Verdict::Fail(Failure::NoWorkers) <==> notice is NoWorker && s.remaining
                > 0
            &&& verdict is StopWorkers <==> notice is Drained && s.remaining == 1
            &&& notice is Drained && s.remaining > 0 ==> next.remaining == s.remaining - 1
            &&& !(notice is Drained) || s.remaining == 0 ==> next == s
            &&& next.wf()
        }),
{
}

/// An endpoint starts exactly with an MTU that IPv6 allows and a length field can say, and
/// with a queue; a wrong MTU is told first.
pub proof fn law_endpoints_start_with_a_queue(queues: usize, mtu: usize)
    ensures
        setup(queues, mtu) is Ok <==> 1280 <= mtu <= 65535 && queues > 0,
        setup(queues, mtu) matches Ok(s) ==> s.remaining == queues && !s.stopping,
        setup(queues, mtu) == Err::<Supervisor, SetupError>(SetupError::Mtu) <==> mtu < 1280 || mtu
            > 65535,
{
}

/// A frame leaves its buffer behind exactly where it fills less than a quarter of it.
pub proof fn law_small_frames_are_copied(len: int, capacity: int)
    requires
        0 <= len,
        0 <= capacity,
        capacity % 4 == 0,
    ensures
        spec_copies_out(len, capacity) <==> 4 * len < capacity,
{
}

/// What a call sends is among all that is sent.
proof fn lemma_call_is_sent(actions: Seq<Action>, k: int, u: int)
    requires
        0 <= k < actions.len(),
        0 <= u < action_units(actions[k]).len(),
    ensures
        sent_units(actions).contains(action_units(actions[k])[u]),
    decreases actions.len(),
{
    let rest = actions.drop_last();
    let unit = action_units(actions[k])[u];
    if k < actions.len() - 1 {
        assert(rest[k] == actions[k]);
        lemma_call_is_sent(rest, k, u);
        let i = choose|i: int| 0 <= i < sent_units(rest).len() && sent_units(rest)[i] == unit;
        assert(sent_units(actions)[i] == unit);
    } else {
        assert(sent_units(actions)[sent_units(rest).len() + u] == unit);
    }
}

/// What is sent comes from some item.
proof fn lemma_flattened_origin(trace: Seq<Seq<Unit>>, unit: Unit) -> (i: int)
    requires
        flattened(trace).contains(unit),
    ensures
        0 <= i < trace.len(),
        trace[i].contains(unit),
    decreases trace.len(),
{
    let rest = trace.drop_last();
    let a = choose|a: int| 0 <= a < flattened(trace).len() && flattened(trace)[a] == unit;
    let n = flattened(rest).len() as int;
    if a < n {
        assert(flattened(rest)[a] == unit);
        lemma_flattened_origin(rest, unit)
    } else {
        assert(trace.last()[a - n] == unit);
        trace.len() - 1
    }
}

/// A call sends something of its own kind, which comes from an item of that kind.
proof fn lemma_call_origin(
    items: Seq<Transmit>,
    actions: Seq<Action>,
    mtu: int,
    udp_gso: bool,
    k: int,
)
    requires
        planned(items, actions, mtu, udp_gso),
        0 <= k < actions.len(),
        bounded(actions[k]),
    ensures
        actions[k] is Tcp ==> exists|i: int|
            0 <= i < items.len() && (#[trigger] items[i]) is TcpGso,
        actions[k] is Udp ==> exists|i: int|
            0 <= i < items.len() && (#[trigger] items[i]) is Datagram,
        actions[k] is Batch ==> exists|i: int|
            0 <= i < items.len() && ((#[trigger] items[i]) is Packet || (
            items[i] matches Transmit::Datagram { source, destination, payload } && !aggregable(
                mtu,
                udp_gso,
                source,
                destination,
                contents(payload).len() as int,
            ))),
{
    let trace = choose|trace: Seq<Seq<Unit>>|
        #![trigger flattened(trace)]
        trace.len() == items.len() && flattened(trace) == sent_units(actions) && (forall|i: int|
            0 <= i < items.len() ==> carries(#[trigger] items[i], trace[i], mtu, udp_gso));
    lemma_call_is_sent(actions, k, 0);
    let unit = action_units(actions[k])[0];
    let i = lemma_flattened_origin(trace, unit);
    assert(carries(items[i], trace[i], mtu, udp_gso));
    let a = choose|a: int| 0 <= a < trace[i].len() && trace[i][a] == unit;
    match actions[k] {
        Action::Batch(packets) => {
            assert(unit == Unit::Frame(packets@[0]));
        },
        Action::Tcp { packet, payload, segment_size } => {
            assert(unit == Unit::Tcp(packet, payload@, segment_size));
            if let Transmit::Datagram { source, destination, payload } = items[i] {
                assert(trace[i][a] is Tcp);
            }
        },
        Action::Udp { header, parts, size } => {
            assert(unit == Unit::Part(header, parts@[0], size));
        },
    }
}

/// Packets in a row leave by one call.
pub proof fn law_packets_in_a_row_share_a_call(
    items: Seq<Transmit>,
    actions: Seq<Action>,
    mtu: int,
    udp_gso: bool,
)
    requires
        planned(items, actions, mtu, udp_gso),
        forall|k: int| 0 <= k < actions.len() ==> bounded(#[trigger] actions[k]),
        batches_apart(actions),
        items.len() > 0,
        forall|i: int| 0 <= i < items.len() ==> (#[trigger] items[i]) is Packet,
    ensures
        actions.len() == 1,
        actions[0] is Batch,
{
    assert forall|k: int| 0 <= k < actions.len() implies (#[trigger] actions[k]) is Batch by {
        lemma_call_origin(items, actions, mtu, udp_gso, k);
    }
    if actions.len() >= 2 {
        assert(actions[0] is Batch && actions[1] is Batch);
    }
    law_every_item_is_sent(items, actions, mtu, udp_gso, 0);
    if actions.len() == 0 {
        assert(sent_units(actions).len() == 0);
    }
}

/// Datagrams in a row that are equal in their ends and their size, and that the device can
/// cut, leave by one call, as long as they are no more than sixty-four and fit one IPv4
/// datagram together.
pub proof fn law_equal_datagrams_share_a_call(
    items: Seq<Transmit>,
    actions: Seq<Action>,
    next: Seq<int>,
    mtu: int,
    source: SocketAddress,
    destination: SocketAddress,
    size: int,
)
    requires
        planned(items, actions, mtu, true),
        forall|k: int| 0 <= k < actions.len() ==> bounded(#[trigger] actions[k]),
        grouped(items, actions, next),
        0 < items.len() <= 64,
        items.len() * size <= 65507,
        aggregable(mtu, true, source, destination, size),
        forall|i: int| 0 <= i < items.len() ==> joins(#[trigger] items[i], source, destination, size),
    ensures
        actions.len() == 1,
        actions[0] matches Action::Udp { header, parts, size: s } && s == size && parts@.len()
            == items.len(),
{
    let n = items.len() as int;
    assert forall|k: int| 0 <= k < actions.len() implies (#[trigger] actions[k]) matches Action::Udp {
        header,
        parts,
        size: s,
    } && s == size && next[k] == n && 0 < parts@.len() <= n by {
        lemma_call_origin(items, actions, mtu, true, k);
        assert(actions[k] is Udp) by {
            if actions[k] is Batch {
                let i = choose|i: int|
                    0 <= i < items.len() && ((#[trigger] items[i]) is Packet || (
                    items[i] matches Transmit::Datagram { source: a, destination: b, payload }
                        && !aggregable(mtu, true, a, b, contents(payload).len() as int)));
                assert(joins(items[i], source, destination, size));
            }
            if actions[k] is Tcp {
                let i = choose|i: int| 0 <= i < items.len() && (#[trigger] items[i]) is TcpGso;
                assert(joins(items[i], source, destination, size));
            }
        }
        lemma_group_is_whole(items, actions[k], next[k], source, destination, size);
    }
    if actions.len() >= 2 {
        assert(actions[0] is Udp && actions[1] is Udp);
        assert(next[0] <= next[1] - actions[1]->parts@.len());
    }
    law_every_item_is_sent(items, actions, mtu, true, 0);
    if actions.len() == 0 {
        assert(sent_units(actions).len() == 0);
        assert(joins(items[0], source, destination, size));
    } else {
        lemma_units_of_singles(items, actions, mtu, source, destination, size);
    }
}

/// An aggregate of equal datagrams ends with the last of them.
proof fn lemma_group_is_whole(
    items: Seq<Transmit>,
    action: Action,
    next: int,
    source: SocketAddress,
    destination: SocketAddress,
    size: int,
)
    requires
        action is Udp,
        bounded(action),
        ends_at(items, action, next),
        0 < items.len() <= 64,
        items.len() * size <= 65507,
        0 < size,
        forall|i: int| 0 <= i < items.len() ==> joins(#[trigger] items[i], source, destination, size),
    ensures
        next == items.len(),
        action->Udp_size == size,
        0 < action->parts@.len() <= items.len(),
{
    let n = items.len() as int;
    let parts = action->parts@;
    let s = action->Udp_size;
    let (from, to) = choose|from: SocketAddress, to: SocketAddress| #[trigger]
        is_group(items, parts, s, next, from, to) && is_shared_header(
            contents(action->Udp_header),
            from,
            to,
        );
    assert(items[next - parts.len() + 0] == (Transmit::Datagram {
        source: from,
        destination: to,
        payload: parts[0],
    }));
    assert(joins(items[next - parts.len()], source, destination, size));
    assert(contents(parts[0]).len() == s);
    if next < n {
        assert(joins(items[next], source, destination, size));
        assert(parts.len() < n);
        assert((parts.len() + 1) * size <= n * size) by (nonlinear_arith)
            requires
                parts.len() + 1 <= n,
                0 < size,
        ;
        assert(!is_full(parts.len() as int, s as int));
    }
}

/// Where each item is one part, all parts together are as many as the items.
proof fn lemma_units_of_singles(
    items: Seq<Transmit>,
    actions: Seq<Action>,
    mtu: int,
    source: SocketAddress,
    destination: SocketAddress,
    size: int,
)
    requires
        planned(items, actions, mtu, true),
        aggregable(mtu, true, source, destination, size),
        forall|i: int| 0 <= i < items.len() ==> joins(#[trigger] items[i], source, destination, size),
        actions.len() == 1,
    ensures
        action_units(actions[0]).len() == items.len(),
{
    let trace = choose|trace: Seq<Seq<Unit>>|
        #![trigger flattened(trace)]
        trace.len() == items.len() && flattened(trace) == sent_units(actions) && (forall|i: int|
            0 <= i < items.len() ==> carries(#[trigger] items[i], trace[i], mtu, true));
    assert forall|i: int| 0 <= i < trace.len() implies (#[trigger] trace[i]).len() == 1 by {
        assert(carries(items[i], trace[i], mtu, true));
        assert(joins(items[i], source, destination, size));
    }
    lemma_flattened_count(trace);
    assert(actions.drop_last() =~= Seq::<Action>::empty());
    assert(sent_units(actions.drop_last()).len() == 0);
    assert(actions.last() == actions[0]);
    assert(sent_units(actions) == sent_units(actions.drop_last()) + action_units(actions.last()));
}

proof fn lemma_flattened_count(trace: Seq<Seq<Unit>>)
    requires
        forall|i: int| 0 <= i < trace.len() ==> (#[trigger] trace[i]).len() == 1,
    ensures
        flattened(trace).len() == trace.len(),
    decreases trace.len(),
{
    if trace.len() > 0 {
        let rest = trace.drop_last();
        assert forall|i: int| 0 <= i < rest.len() implies (#[trigger] rest[i]).len() == 1 by {
            assert(rest[i] == trace[i]);
        }
        lemma_flattened_count(rest);
        assert(trace[trace.len() - 1].len() == 1);
    }
}

} // verus!
