//! Associations whose datagrams the flow's worker exchanges with a socket itself.
use crate::exchange::passes;
use crate::packet::{spec_unicast, Flow};
use crate::shared::contents;
use crate::tcp_storage::least;
use crate::transmit::{Transmit, DATAGRAM_BYTES};
use crate::udp::reply_flow;
use crate::wire::SocketAddress;
use crate::worker::Progress;
use bytes::Bytes;
use std::collections::VecDeque;
use vstd::prelude::*;

verus! {

/// What a waiting datagram counts for besides its payload.
pub const PACKET_BYTES: usize = 64;

/// How many datagrams one call of the socket takes or gives.
pub const BATCH: usize = 32;

/// A datagram and the address it goes to or comes from, where that is no name.
pub struct Datagram {
    pub target: Option<SocketAddress>,
    pub payload: Bytes,
}

/// What a waiting datagram counts for.
pub open spec fn spec_cost(packet: Datagram) -> int {
    contents(packet.payload).len() + PACKET_BYTES
}

/// What some waiting datagrams count for together.
pub open spec fn total_cost(packets: Seq<Datagram>) -> int
    decreases packets.len(),
{
    if packets.len() == 0 {
        0
    } else {
        total_cost(packets.drop_last()) + spec_cost(packets.last())
    }
}

/// One more datagram is taken into a queue with this allowance.
pub open spec fn takes(waiting: Seq<Datagram>, packet: Datagram, target: usize) -> bool {
    waiting.len() == 0 || total_cost(waiting) + spec_cost(packet) <= target
}

proof fn lemma_total_cost_front(packets: Seq<Datagram>)
    requires
        packets.len() > 0,
    ensures
        total_cost(packets) == spec_cost(packets[0]) + total_cost(packets.skip(1)),
        total_cost(packets.skip(1)) >= 0,
    decreases packets.len(),
{
    if packets.len() == 1 {
        assert(packets.drop_last() =~= Seq::<Datagram>::empty());
        assert(packets.skip(1) =~= Seq::<Datagram>::empty());
    } else {
        lemma_total_cost_front(packets.drop_last());
        assert(packets.drop_last().skip(1) =~= packets.skip(1).drop_last());
    }
}

/// What a reply becomes on its way back through the device: nothing, where its
/// source has no place on the wire.
pub open spec fn reply_ends(flow: Flow, reply: Datagram) -> Option<(SocketAddress, SocketAddress)> {
    match reply.target {
        Some(source) => if source.ip is V4 == flow.source.ip is V4 && spec_unicast(source.ip) {
            Some((source, flow.source))
        } else {
            None
        },
        None => None,
    }
}

/// The replies that can be sent, in order.
pub open spec fn sendable(flow: Flow, replies: Seq<Datagram>) -> Seq<Datagram> {
    replies.filter(|reply: Datagram| reply_ends(flow, reply) is Some)
}

/// The replies from place `k` on are left; none of those before it can be sent.
pub open spec fn is_skip(
    flow: Flow,
    replies: Seq<Datagram>,
    rest: Seq<Datagram>,
    k: int,
) -> bool {
    &&& 0 <= k <= replies.len()
    &&& rest == replies.skip(k)
    &&& forall|i: int| 0 <= i < k ==> reply_ends(flow, #[trigger] replies[i]) is None
}

/// Only replies at the front that cannot be sent were dropped.
pub open spec fn skipped(flow: Flow, replies: Seq<Datagram>, rest: Seq<Datagram>) -> bool {
    exists|k: int| #[trigger] is_skip(flow, replies, rest, k)
}

/// What came of offering datagrams to the socket.
#[derive(Clone, Copy, Debug, PartialEq, Eq, Structural)]
pub enum Offered {
    /// It took so many.
    Sent(usize),
    /// It refused the first for good.
    Failed,
    /// It takes none yet.
    Pending,
}

/// What came of asking the socket for replies.
#[derive(Clone, Copy, Debug, PartialEq, Eq, Structural)]
pub enum Received {
    /// The socket has ended.
    End,
    /// Replies came.
    Replies,
    /// The socket failed for now.
    Failed,
    /// Nothing is there.
    Pending,
}

/// An association: datagrams that wait for the socket, and replies that wait for
/// the device.
pub struct Direct {
    flow: Flow,
    pending: VecDeque<Datagram>,
    bytes: usize,
    replies: VecDeque<Datagram>,
}

impl Direct {
    /// The datagrams that wait for the socket, in order.
    pub closed spec fn waiting(&self) -> Seq<Datagram> {
        self.pending@
    }

    /// The replies that wait for the device, in order.
    pub closed spec fn answers(&self) -> Seq<Datagram> {
        self.replies@
    }

    pub closed spec fn spec_flow(&self) -> Flow {
        self.flow
    }

    /// What the waiting datagrams count for is known.
    pub closed spec fn wf(&self) -> bool {
        self.bytes == total_cost(self.pending@)
    }

    /// An association that starts with the datagrams which its queue held. They
    /// come before all that arrive later.
    pub fn new(flow: Flow, queued: VecDeque<Datagram>) -> (r: Direct)
        requires
            total_cost(queued@) <= usize::MAX,
        ensures
            r.wf(),
            r.spec_flow() == flow,
            r.waiting() == queued@,
            r.answers().len() == 0,
    {
        let mut bytes: usize = 0;
        let mut i: usize = 0;
        assert(queued@.skip(0) =~= queued@);
        while i < queued.len()
            invariant
                i <= queued@.len(),
                bytes + total_cost(queued@.skip(i as int)) == total_cost(queued@),
                total_cost(queued@) <= usize::MAX,
            decreases queued@.len() - i,
        {
            proof {
                lemma_total_cost_front(queued@.skip(i as int));
                assert(queued@.skip(i as int).skip(1) =~= queued@.skip(i as int + 1));
            }
            bytes = bytes + (queued[i].payload.len() + PACKET_BYTES);
            i = i + 1;
        }
        assert(queued@.skip(i as int) =~= Seq::<Datagram>::empty());
        Direct { flow, pending: queued, bytes, replies: VecDeque::new() }
    }

    /// Adds a datagram for the socket, if the allowance has room for it. One is
    /// always taken, whatever its size.
    pub fn enqueue(&mut self, packet: Datagram, target: usize) -> (r: bool)
        requires
            old(self).wf(),
            total_cost(old(self).waiting()) + spec_cost(packet) <= usize::MAX,
        ensures
            final(self).wf(),
            r == takes(old(self).waiting(), packet, target),
            final(self).waiting() == (if r {
                old(self).waiting().push(packet)
            } else {
                old(self).waiting()
            }),
            passes(
                old(self).waiting(),
                if r {
                    seq![packet]
                } else {
                    Seq::empty()
                },
                Seq::empty(),
                final(self).waiting(),
            ),
            final(self).answers() == old(self).answers(),
            final(self).spec_flow() == old(self).spec_flow(),
    {
        let ghost none = Seq::<Datagram>::empty();
        proof {
            assert(self.waiting() + none =~= none + self.waiting());
            if self.pending@.len() > 0 {
                lemma_total_cost_front(self.pending@);
            }
        }
        let cost: usize = packet.payload.len() + PACKET_BYTES;
        if self.bytes != 0 && self.bytes.saturating_add(cost) > target {
            return false;
        }
        let ghost before = self.pending@;
        self.bytes = self.bytes + cost;
        self.pending.push_back(packet);
        proof {
            assert(self.pending@.drop_last() =~= before);
            assert(before + seq![packet] =~= none + self.waiting());
        }
        true
    }

    /// How many datagrams are offered to the socket at once.
    fn offer(&self) -> (r: usize)
        ensures
            r == least(self.waiting().len() as int, BATCH as int),
    {
        if self.pending.len() < BATCH {
            self.pending.len()
        } else {
            BATCH
        }
    }

    /// The datagram at a place in the offer.
    pub fn offered(&self, i: usize) -> (r: &Datagram)
        requires
            i < self.waiting().len(),
        ensures
            *r == self.waiting()[i as int],
    {
        &self.pending[i]
    }

    /// Takes the datagrams off that the socket took, or the one that it refused.
    /// Returns what they counted for; the capacity controller learns of it. The
    /// order of the others stays.
    fn after_offer(&mut self, offered: Offered) -> (r: usize)
        requires
            old(self).wf(),
            offered matches Offered::Sent(count) ==> count <= old(self).waiting().len(),
            offered == Offered::Failed ==> old(self).waiting().len() > 0,
        ensures
            final(self).wf(),
            ({
                let count = match offered {
                    Offered::Sent(count) => count as int,
                    Offered::Failed => 1,
                    Offered::Pending => 0,
                };
                &&& final(self).waiting() == old(self).waiting().skip(count)
                &&& r == total_cost(old(self).waiting()) - total_cost(final(self).waiting())
            }),
            final(self).answers() == old(self).answers(),
            final(self).spec_flow() == old(self).spec_flow(),
    {
        let count: usize = match offered {
            Offered::Sent(count) => count,
            Offered::Failed => 1,
            Offered::Pending => 0,
        };
        let ghost all = self.pending@;
        let before: usize = self.bytes;
        let mut i: usize = 0;
        assert(all.skip(0) =~= all);
        while i < count
            invariant
                self.wf(),
                i <= count <= all.len(),
                self.pending@ == all.skip(i as int),
                self.replies@ == old(self).replies@,
                self.flow == old(self).flow,
                self.bytes <= before,
                before == total_cost(all),
            decreases count - i,
        {
            let ghost had = self.pending@;
            match self.pending.pop_front() {
                Some(packet) => {
                    proof {
                        lemma_total_cost_front(had);
                        assert(had.subrange(1, had.len() as int) =~= had.skip(1));
                        assert(self.pending@ =~= all.skip(i as int + 1));
                    }
                    self.bytes = self.bytes - (packet.payload.len() + PACKET_BYTES);
                },
                None => {
                    return 0;
                },
            }
            i = i + 1;
        }
        before - self.bytes
    }

    /// Whether more datagrams wait for the socket, so that it has to be asked
    /// again.
    fn has_waiting(&self) -> (r: bool)
        ensures
            r == (self.waiting().len() > 0),
    {
        self.pending.len() > 0
    }

    /// Adds replies that the socket gave.
    pub fn add_replies(&mut self, replies: VecDeque<Datagram>)
        requires
            old(self).wf(),
        ensures
            final(self).wf(),
            final(self).answers() == old(self).answers() + replies@,
            passes(
                sendable(old(self).spec_flow(), old(self).answers()),
                sendable(old(self).spec_flow(), replies@),
                Seq::empty(),
                sendable(old(self).spec_flow(), final(self).answers()),
            ),
            final(self).waiting() == old(self).waiting(),
            final(self).spec_flow() == old(self).spec_flow(),
    {
        proof {
            let flow = self.spec_flow();
            let all = sendable(flow, self.answers() + replies@);
            Seq::filter_distributes_over_add(
                self.answers(),
                replies@,
                |reply: Datagram| reply_ends(flow, reply) is Some,
            );
            assert(Seq::<Datagram>::empty() + all =~= all);
        }
        let mut replies = replies;
        self.replies.append(&mut replies);
    }

    /// Finds the next reply that can be sent, and what it counts for in the
    /// device's queue. Those before it that have no place on the wire are dropped.
    fn next_reply(&mut self) -> (r: Option<usize>)
        requires
            old(self).wf(),
            forall|i: int|
                0 <= i < old(self).answers().len() ==> contents(
                    (#[trigger] old(self).answers()[i]).payload,
                ).len() + DATAGRAM_BYTES <= usize::MAX,
        ensures
            final(self).wf(),
            sendable(final(self).spec_flow(), final(self).answers()) == sendable(
                old(self).spec_flow(),
                old(self).answers(),
            ),
            skipped(old(self).spec_flow(), old(self).answers(), final(self).answers()),
            r is None ==> final(self).answers().len() == 0,
            r matches Some(cost) ==> final(self).answers().len() > 0 && reply_ends(
                final(self).spec_flow(),
                final(self).answers()[0],
            ) is Some && cost == contents(final(self).answers()[0].payload).len()
                + DATAGRAM_BYTES,
            final(self).waiting() == old(self).waiting(),
            final(self).spec_flow() == old(self).spec_flow(),
    {
        let ghost all = self.replies@;
        let ghost mut k: int = 0;
        assert(all.skip(0) =~= all);
        while self.replies.len() > 0
            invariant
                self.wf(),
                self.waiting() == old(self).waiting(),
                self.spec_flow() == old(self).spec_flow(),
                all == old(self).answers(),
                0 <= k <= all.len(),
                self.answers() == all.skip(k),
                forall|i: int|
                    0 <= i < k ==> reply_ends(old(self).spec_flow(), #[trigger] all[i]) is None,
                sendable(self.spec_flow(), self.answers()) == sendable(
                    old(self).spec_flow(),
                    old(self).answers(),
                ),
                forall|i: int|
                    0 <= i < self.answers().len() ==> contents(
                        (#[trigger] self.answers()[i]).payload,
                    ).len() + DATAGRAM_BYTES <= usize::MAX,
            decreases self.replies@.len(),
        {
            let usable: bool = match self.replies[0].target {
                Some(source) => reply_flow(self.flow, source).is_some(),
                None => false,
            };
            if usable {
                assert(contents(self.answers()[0].payload).len() + DATAGRAM_BYTES <= usize::MAX);
                assert(is_skip(self.flow, all, self.answers(), k));
                return Some(self.replies[0].payload.len() + DATAGRAM_BYTES);
            }
            let ghost before = self.replies@;
            let _skipped = self.replies.pop_front();
            proof {
                assert(before.subrange(1, before.len() as int) =~= before.skip(1));
                lemma_sendable_front(self.flow, before);
                assert(before[0] == all[k]);
                assert(self.answers() =~= all.skip(k + 1));
                k = k + 1;
                assert forall|i: int| 0 <= i < self.answers().len() implies contents(
                    (#[trigger] self.answers()[i]).payload,
                ).len() + DATAGRAM_BYTES <= usize::MAX by {
                    assert(self.replies@[i] == before[i + 1]);
                }
            }
        }
        assert(is_skip(self.flow, all, self.answers(), k));
        None
    }

    /// Takes the next reply, once the device's queue has admitted it.
    fn take_reply(&mut self) -> (r: Option<Transmit>)
        requires
            old(self).wf(),
            old(self).answers().len() > 0,
            reply_ends(old(self).spec_flow(), old(self).answers()[0]) is Some,
        ensures
            final(self).wf(),
            final(self).answers() == old(self).answers().skip(1),
            r == Some(
                (Transmit::Datagram {
                    source: (reply_ends(old(self).spec_flow(), old(self).answers()[0])->0).0,
                    destination: (reply_ends(old(self).spec_flow(), old(self).answers()[0])->0).1,
                    payload: old(self).answers()[0].payload,
                }),
            ),
            final(self).waiting() == old(self).waiting(),
            final(self).spec_flow() == old(self).spec_flow(),
    {
        let ghost before = self.replies@;
        match self.replies.pop_front() {
            Some(reply) => {
                assert(self.replies@ =~= before.skip(1));
                match reply.target {
                    Some(source) => match reply_flow(self.flow, source) {
                        Some((source, destination)) => Some(
                            Transmit::Datagram { source, destination, payload: reply.payload },
                        ),
                        None => None,
                    },
                    None => None,
                }
            },
            None => None,
        }
    }
}

/// Whether the device's queue admits a reply.
#[derive(Clone, Copy, Debug, PartialEq, Eq, Structural)]
pub enum Admitted {
    Yes,
    Full,
    Gone,
}

/// Where a turn of an association stands.
#[derive(Clone, Copy, Debug, PartialEq, Eq, Structural)]
pub enum Phase {
    /// Offer datagrams to the socket.
    Offer,
    /// See what the socket took.
    Offered,
    /// Find a reply that waits; `fresh` tells that the socket gave it in this
    /// turn.
    Flush { fresh: bool },
    /// See whether the device's queue admits the reply.
    Reserved { fresh: bool },
    /// Ask the socket for replies.
    Receive,
    /// See what the socket gave.
    Received,
}

/// What is seen before a step. A step looks at what its phase needs.
#[derive(Clone, Copy, Debug, PartialEq, Eq, Structural)]
pub struct Seen {
    pub offered: Offered,
    pub admitted: Admitted,
    pub received: Received,
}

/// What the worker does next.
pub enum Action {
    /// Nothing here; go on with the next step.
    Proceed,
    /// Offer so many of the waiting datagrams to the socket.
    Offer(usize),
    /// Tell the capacity controller what left the queue, and wake the association
    /// if more waits.
    Completed { bytes: usize, wake: bool },
    /// Ask the device's queue for so many bytes.
    Reserve(usize),
    /// Put a reply into the device's queue.
    Send(Transmit),
    /// Ask the socket for replies, and add those that it gives.
    Receive,
    /// The turn is over.
    End { progress: Progress, wake: bool },
}

/// How many datagrams leave the queue.
pub open spec fn leaving(offered: Offered) -> int {
    match offered {
        Offered::Sent(count) => count as int,
        Offered::Failed => 1,
        Offered::Pending => 0,
    }
}

/// The mathematical content of an association.
#[verifier::ext_equal]
pub struct DirectView {
    pub flow: Flow,
    pub waiting: Seq<Datagram>,
    pub answers: Seq<Datagram>,
}

/// One step of a turn: from an association in a phase, and after what was seen, to the
/// association and the phase after it, and to what is done.
pub open spec fn steps(
    had: DirectView,
    phase: Phase,
    seen: Seen,
    now: DirectView,
    next: Phase,
    action: Action,
) -> bool {
    match phase {
        Phase::Offer => {
            &&& now == had
            &&& if had.waiting.len() == 0 {
                action is Proceed && next == (Phase::Flush { fresh: false })
            } else {
                action == Action::Offer(least(had.waiting.len() as int, BATCH as int) as usize)
                    && next == Phase::Offered
            }
        },
        Phase::Offered => {
            &&& now == (DirectView { waiting: had.waiting.skip(leaving(seen.offered)), ..had })
            &&& next == (Phase::Flush { fresh: false })
            &&& action matches Action::Completed { bytes, wake } && bytes == total_cost(had.waiting)
                - total_cost(now.waiting) && wake == (leaving(seen.offered) > 0
                && now.waiting.len() > 0)
        },
        Phase::Flush { fresh } => {
            &&& now == (DirectView { answers: now.answers, ..had })
            &&& skipped(had.flow, had.answers, now.answers)
            &&& sendable(had.flow, now.answers) == sendable(had.flow, had.answers)
            &&& if now.answers.len() == 0 {
                if fresh {
                    action == (Action::End { progress: Progress::Idle(None), wake: true })
                } else {
                    action is Proceed && next == Phase::Receive
                }
            } else {
                &&& reply_ends(had.flow, now.answers[0]) is Some
                &&& action == Action::Reserve(
                    (contents(now.answers[0].payload).len() + DATAGRAM_BYTES) as usize,
                )
                &&& next == (Phase::Reserved { fresh })
            }
        },
        Phase::Reserved { fresh } => match seen.admitted {
            Admitted::Yes => {
                let reply = had.answers[0];
                let ends = reply_ends(had.flow, reply)->0;
                &&& action == Action::Send(
                    (Transmit::Datagram {
                        source: ends.0,
                        destination: ends.1,
                        payload: reply.payload,
                    }),
                )
                &&& now == (DirectView { answers: had.answers.skip(1), ..had })
                &&& next == (Phase::Flush { fresh })
            },
            Admitted::Full => now == had && action == (Action::End {
                progress: Progress::Blocked(
                    (contents(had.answers[0].payload).len() + DATAGRAM_BYTES) as usize,
                ),
                wake: false,
            }),
            Admitted::Gone => now == had && action == (Action::End {
                progress: Progress::Closed,
                wake: false,
            }),
        },
        Phase::Receive => now == had && action is Receive && next == Phase::Received,
        Phase::Received => {
            &&& now == had
            &&& match seen.received {
                Received::End => action == (Action::End {
                    progress: Progress::Closed,
                    wake: false,
                }),
                Received::Replies => action is Proceed && next == (Phase::Flush { fresh: true }),
                Received::Failed => action == (Action::End {
                    progress: Progress::Idle(None),
                    wake: true,
                }),
                Received::Pending => action == (Action::End {
                    progress: Progress::Idle(None),
                    wake: false,
                }),
            }
        },
    }
}

impl Direct {
    /// What an association holds.
    pub open spec fn state(&self) -> DirectView {
        DirectView { flow: self.spec_flow(), waiting: self.waiting(), answers: self.answers() }
    }
}

impl Direct {
    /// Takes one step of a turn. Datagrams go out first, then replies that waited,
    /// then those that the socket gives now. The association keeps at most one
    /// batch of replies while the device's queue is full; its other direction, and
    /// other flows, go on.
    pub fn poll(&mut self, phase: &mut Phase, seen: &Seen) -> (r: Action)
        requires
            old(self).wf(),
            forall|i: int|
                0 <= i < old(self).answers().len() ==> contents(
                    (#[trigger] old(self).answers()[i]).payload,
                ).len() + DATAGRAM_BYTES <= usize::MAX,
            *old(phase) == Phase::Offered ==> leaving(seen.offered) <= old(self).waiting().len(),
            *old(phase) matches Phase::Reserved { .. } ==> old(self).answers().len() > 0
                && reply_ends(old(self).spec_flow(), old(self).answers()[0]) is Some,
        ensures
            final(self).wf(),
            final(self).spec_flow() == old(self).spec_flow(),
            passes(
                old(self).waiting(),
                Seq::empty(),
                if *old(phase) == Phase::Offered {
                    old(self).waiting().take(leaving(seen.offered))
                } else {
                    Seq::empty()
                },
                final(self).waiting(),
            ),
            passes(
                sendable(old(self).spec_flow(), old(self).answers()),
                Seq::empty(),
                if r is Send {
                    seq![old(self).answers()[0]]
                } else {
                    Seq::empty()
                },
                sendable(old(self).spec_flow(), final(self).answers()),
            ),
            !(*old(phase) matches Phase::Offered) ==> final(self).waiting() == old(self).waiting(),
            !(*old(phase) matches Phase::Flush { .. }) && !(*old(phase) matches Phase::Reserved { .. })
                ==> final(self).answers() == old(self).answers(),
            steps(
                old(self).state(),
                *old(phase),
                *seen,
                final(self).state(),
                *final(phase),
                r,
            ),
    {
        proof {
            let none = Seq::<Datagram>::empty();
            let replies = sendable(self.spec_flow(), self.answers());
            let waiting = self.waiting();
            assert(waiting + none =~= waiting);
            assert(none + waiting =~= waiting);
            assert(replies + none =~= replies);
            assert(none + replies =~= replies);
            if *phase == Phase::Offered {
                let n = leaving(seen.offered);
                assert(waiting.take(n) + waiting.skip(n) =~= waiting);
            }
            if *phase matches Phase::Reserved { .. } {
                lemma_sendable_front(self.spec_flow(), self.answers());
            }
        }
        match *phase {
            Phase::Offer => {
                let count: usize = self.offer();
                if count == 0 {
                    *phase = Phase::Flush { fresh: false };
                    Action::Proceed
                } else {
                    *phase = Phase::Offered;
                    Action::Offer(count)
                }
            },
            Phase::Offered => {
                let moved: bool = match seen.offered {
                    Offered::Sent(count) => count > 0,
                    Offered::Failed => true,
                    Offered::Pending => false,
                };
                let bytes: usize = self.after_offer(seen.offered);
                *phase = Phase::Flush { fresh: false };
                Action::Completed { bytes, wake: moved && self.has_waiting() }
            },
            Phase::Flush { fresh } => match self.next_reply() {
                Some(cost) => {
                    *phase = Phase::Reserved { fresh };
                    Action::Reserve(cost)
                },
                None => {
                    if fresh {
                        Action::End { progress: Progress::Idle(None), wake: true }
                    } else {
                        *phase = Phase::Receive;
                        Action::Proceed
                    }
                },
            },
            Phase::Reserved { fresh } => match seen.admitted {
                Admitted::Yes => {
                    *phase = Phase::Flush { fresh };
                    match self.take_reply() {
                        Some(reply) => Action::Send(reply),
                        None => Action::Proceed,
                    }
                },
                Admitted::Full => {
                    assert(contents(self.answers()[0].payload).len() + DATAGRAM_BYTES
                        <= usize::MAX);
                    let cost: usize = self.replies[0].payload.len() + DATAGRAM_BYTES;
                    Action::End { progress: Progress::Blocked(cost), wake: false }
                },
                Admitted::Gone => Action::End { progress: Progress::Closed, wake: false },
            },
            Phase::Receive => {
                *phase = Phase::Received;
                Action::Receive
            },
            Phase::Received => match seen.received {
                Received::End => Action::End { progress: Progress::Closed, wake: false },
                Received::Replies => {
                    *phase = Phase::Flush { fresh: true };
                    Action::Proceed
                },
                Received::Failed => Action::End { progress: Progress::Idle(None), wake: true },
                Received::Pending => Action::End { progress: Progress::Idle(None), wake: false },
            },
        }
    }
}

/// A reply that cannot be sent is skipped; one that can comes first.
proof fn lemma_sendable_front(flow: Flow, replies: Seq<Datagram>)
    requires
        replies.len() > 0,
    ensures
        sendable(flow, replies) == if reply_ends(flow, replies[0]) is Some {
            seq![replies[0]] + sendable(flow, replies.skip(1))
        } else {
            sendable(flow, replies.skip(1))
        },
    decreases replies.len(),
{
    reveal(Seq::filter);
    if replies.len() == 1 {
        assert(replies.drop_last() =~= Seq::<Datagram>::empty());
        assert(replies.skip(1) =~= Seq::<Datagram>::empty());
        assert(sendable(flow, replies) =~= if reply_ends(flow, replies[0]) is Some {
            seq![replies[0]] + sendable(flow, replies.skip(1))
        } else {
            sendable(flow, replies.skip(1))
        });
    } else {
        lemma_sendable_front(flow, replies.drop_last());
        assert(replies.drop_last().skip(1) =~= replies.skip(1).drop_last());
        assert(sendable(flow, replies) =~= if reply_ends(flow, replies[0]) is Some {
            seq![replies[0]] + sendable(flow, replies.skip(1))
        } else {
            sendable(flow, replies.skip(1))
        });
    }
}

/// Replies leave in the order in which they came: taking the next one that can be
/// sent leaves the others as they were.
pub proof fn law_replies_keep_their_order(flow: Flow, replies: Seq<Datagram>)
    requires
        replies.len() > 0,
        reply_ends(flow, replies[0]) is Some,
    ensures
        sendable(flow, replies)[0] == replies[0],
        sendable(flow, replies).skip(1) == sendable(flow, replies.skip(1)),
{
    lemma_sendable_front(flow, replies);
    assert(sendable(flow, replies).skip(1) =~= sendable(flow, replies.skip(1)));
}

/// A reply goes back to the client under the address that it came from, if that is a host
/// of the client's family.
pub proof fn law_replies_go_back_to_the_client(flow: Flow, reply: Datagram)
    ensures
        reply_ends(flow, reply) is Some <==> (reply.target matches Some(source) && spec_unicast(
            source.ip,
        ) && (source.ip is V4 <==> flow.source.ip is V4)),
        reply_ends(flow, reply) matches Some((source, destination)) ==> reply.target == Some(source)
            && destination == flow.source,
{
}

/// Datagrams wait for the socket in their order, and leave only when it takes them, or the
/// first one when it refuses that for good. At most thirty-two are offered at once, and
/// none is held back. What left is what the capacity controller is told, and the
/// association asks for another turn where it moved and more waits.
pub proof fn law_datagrams_leave_when_taken(
    had: DirectView,
    phase: Phase,
    seen: Seen,
    now: DirectView,
    next: Phase,
    action: Action,
)
    requires
        steps(had, phase, seen, now, next, action),
        phase is Offered ==> leaving(seen.offered) <= had.waiting.len(),
    ensures
        !(phase is Offered) ==> now.waiting == had.waiting,
        phase is Offered ==> {
            let gone = had.waiting.len() - now.waiting.len();
            &&& now.waiting == had.waiting.skip(gone)
            &&& seen.offered matches Offered::Sent(n) ==> gone == n
            &&& seen.offered is Failed ==> gone == 1
            &&& seen.offered is Pending ==> gone == 0
            &&& action matches Action::Completed { bytes, wake } && bytes + total_cost(now.waiting)
                == total_cost(had.waiting) && (wake <==> gone > 0 && now.waiting.len() > 0)
        },
        phase is Offer ==> {
            &&& had.waiting.len() == 0 <==> action is Proceed
            &&& action matches Action::Offer(n) ==> 0 < n <= 32 && n <= had.waiting.len() && (n
                == 32 || n == had.waiting.len()) && next is Offered
        },
        action is Offer ==> phase is Offer,
        now.flow == had.flow,
{
}

/// A reply leaves only when the device's queue has admitted it, and then it is the first
/// that waits, under its own address and with its own payload. While the queue is full the
/// reply waits, and the turn ends until there is room for it.
pub proof fn law_replies_leave_when_admitted(
    had: DirectView,
    phase: Phase,
    seen: Seen,
    now: DirectView,
    next: Phase,
    action: Action,
)
    requires
        steps(had, phase, seen, now, next, action),
        phase is Reserved ==> had.answers.len() > 0 && reply_ends(had.flow, had.answers[0]) is Some
            && contents(had.answers[0].payload).len() + 48 <= usize::MAX,
    ensures
        action is Send <==> phase is Reserved && seen.admitted is Yes,
        action matches Action::Send(item) ==> {
            &&& item matches Transmit::Datagram { source, destination, payload } && had.answers[0]
                == (Datagram { target: Some(source), payload }) && destination == had.flow.source
            &&& now.answers == had.answers.skip(1)
            &&& next is Flush
        },
        phase is Reserved && !(action is Send) ==> now.answers == had.answers,
        phase is Reserved && seen.admitted is Full ==> (action matches Action::End {
            progress: Progress::Blocked(bytes),
            wake,
        } && bytes == contents(had.answers[0].payload).len() + 48 && !wake),
        phase is Reserved && seen.admitted is Gone ==> (action matches Action::End {
            progress,
            wake,
        } && progress is Closed && !wake),
        action is Reserve ==> phase is Flush && next is Reserved && now.answers.len() > 0,
        !(phase is Flush) && !(phase is Reserved) ==> now.answers == had.answers,
{
}

/// A turn asks the socket for replies only once none that can be sent waits, and ends
/// closed only where the socket or the device's queue has. After a failure, and after
/// replies were passed on, there is another turn.
pub proof fn law_associations_ask_when_they_are_through(
    had: DirectView,
    phase: Phase,
    seen: Seen,
    now: DirectView,
    next: Phase,
    action: Action,
)
    requires
        steps(had, phase, seen, now, next, action),
    ensures
        phase is Flush && sendable(had.flow, had.answers).len() > 0 ==> action is Reserve,
        action is Receive <==> phase is Receive,
        phase is Flush && next is Receive && action is Proceed ==> now.answers.len() == 0,
        phase == (Phase::Flush { fresh: false }) && now.answers.len() == 0 ==> next is Receive,
        action matches Action::End { progress, wake } ==> {
            &&& progress is Closed <==> phase is Received && seen.received is End
                || phase is Reserved && seen.admitted is Gone
            &&& progress is Blocked <==> phase is Reserved && seen.admitted is Full
            &&& wake <==> phase == (Phase::Flush { fresh: true }) || phase is Received
                && seen.received is Failed
        },
        phase is Received ==> {
            &&& !(seen.received is Replies) ==> action is End
            &&& seen.received is Replies ==> action is Proceed && next == (Phase::Flush {
                fresh: true,
            })
        },
{
    reveal(Seq::filter);
}

/// Each waiting datagram counts for its payload and sixty-four bytes more.
pub proof fn law_waiting_datagrams_are_counted(packets: Seq<Datagram>, packet: Datagram)
    ensures
        total_cost(Seq::empty()) == 0,
        total_cost(packets.push(packet)) == total_cost(packets) + contents(packet.payload).len()
            + 64,
{
    assert(packets.push(packet).drop_last() =~= packets);
}

/// A datagram is taken into an empty queue whatever its size, and otherwise exactly while
/// all that waits with it stays within the allowance.
pub proof fn law_datagrams_are_taken_within_the_allowance(
    waiting: Seq<Datagram>,
    packet: Datagram,
    target: usize,
)
    ensures
        waiting.len() == 0 ==> takes(waiting, packet, target),
        waiting.len() > 0 ==> (takes(waiting, packet, target) <==> total_cost(waiting.push(packet))
            <= target),
{
    law_waiting_datagrams_are_counted(waiting, packet);
}

/// No reply that can be sent is dropped on the way: of those that wait, only such as have
/// no place on the wire are passed over, and the one that is sent.
pub proof fn law_no_sendable_reply_is_dropped(
    had: DirectView,
    phase: Phase,
    seen: Seen,
    now: DirectView,
    next: Phase,
    action: Action,
    i: int,
)
    requires
        steps(had, phase, seen, now, next, action),
        0 <= i < had.answers.len(),
        had.answers[i].target matches Some(source) && spec_unicast(source.ip) && (source.ip is V4
            <==> had.flow.source.ip is V4),
        action is Send ==> i > 0,
    ensures
        now.answers.contains(had.answers[i]),
{
    if phase is Flush {
        let k = choose|k: int| #[trigger] is_skip(had.flow, had.answers, now.answers, k);
        assert(reply_ends(had.flow, had.answers[i]) is Some);
        assert(i >= k);
        assert(now.answers[i - k] == had.answers[i]);
    } else if phase is Reserved && action is Send {
        assert(now.answers[i - 1] == had.answers[i]);
    } else {
        assert(now.answers[i] == had.answers[i]);
    }
}

} // verus!
