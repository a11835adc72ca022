//! What a receive worker knows of its flows: which of them run, which wait for
//! the writer or for a timer, and which packets belong to it.
use crate::decoder::{decoded, leased, Decoder, REASSEMBLY_LIFETIME};
use crate::endpoint::{counted, Received};
use crate::index::{address_number, number_of, KeyNumbers};
use crate::packet::{
    parse, spec_parse, spec_route, tcp_segment, udp_datagram, Flow, Packet, Parsed, RouteKey,
};
use crate::reassembly::Limits;
use crate::shared::contents;
use crate::table::Table;
use crate::tcp::{follows, reuses};
use crate::udp::{lemma_part_count, part_count, part_end};
use crate::wire::{IpHeader, TcpControl, TCP, UDP};
use std::collections::VecDeque;
use vstd::prelude::*;

verus! {

/// One incarnation of a flow. No two incarnations share a generation, so that
/// events of an old one cannot reach a new one.
#[derive(Clone, Copy, Debug, PartialEq, Eq, Structural)]
pub struct Ready {
    pub flow: Flow,
    pub generation: u64,
}

/// What a worker knows of a connection: when it wants to run next, and whether it
/// waits for the writer.
#[derive(Clone, Copy, Debug, PartialEq, Eq, Structural)]
pub struct TcpEntry {
    pub flow: Flow,
    pub generation: u64,
    pub deadline: Option<u64>,
    pub blocked: bool,
}

/// What a worker knows of an association: whether the worker itself exchanges its
/// datagrams with a socket, and whether it waits for the writer.
#[derive(Clone, Copy, Debug, PartialEq, Eq, Structural)]
pub struct UdpEntry {
    pub flow: Flow,
    pub generation: u64,
    pub direct: bool,
    pub blocked: bool,
}

/// When a connection wants to run.
#[derive(Clone, Copy, Debug, PartialEq, Eq, Structural)]
pub struct Timer {
    pub at: u64,
    pub generation: u64,
    pub flow: Flow,
}

/// A flow in integers: the families and addresses of both ends, the protocol and
/// both ports.
pub open spec fn flow_key(protocol: u8, flow: Flow) -> KeyNumbers {
    (
        (if flow.source.ip is V4 {
            1u8
        } else {
            0u8
        } + if flow.destination.ip is V4 {
            2u8
        } else {
            0u8
        }) as u8,
        address_number(flow.source.ip),
        address_number(flow.destination.ip),
        protocol,
        (flow.source.port * 0x1_0000 + flow.destination.port) as u32,
    )
}

/// Different flows have different keys.
pub broadcast proof fn lemma_flow_keys_differ(protocol: u8, a: Flow, b: Flow)
    ensures
        #[trigger] flow_key(protocol, a) == #[trigger] flow_key(protocol, b) <==> a == b,
{
}

fn key_of(protocol: u8, flow: &Flow) -> (r: KeyNumbers)
    ensures
        r == flow_key(protocol, *flow),
{
    let families: u8 = match (flow.source.is_ipv4(), flow.destination.is_ipv4()) {
        (true, true) => 3,
        (true, false) => 1,
        (false, true) => 2,
        (false, false) => 0,
    };
    let ports: u32 = flow.source.port as u32 * 0x1_0000 + flow.destination.port as u32;
    (families, number_of(flow.source.ip), number_of(flow.destination.ip), protocol, ports)
}

/// The mathematical content of a worker.
pub struct WorkerView {
    pub tcp: Map<KeyNumbers, TcpEntry>,
    pub udp: Map<KeyNumbers, UdpEntry>,
    /// In the order in which they are due.
    pub timers: Seq<Timer>,
    /// Who waits for the writer, and for how many bytes, in the order of arrival.
    pub blocked: Seq<(Ready, usize)>,
    pub generation: u64,
    pub stopping: bool,
    pub reported: bool,
}

/// One timer is due before another.
pub open spec fn sooner(a: Timer, b: Timer) -> bool {
    a.at < b.at || (a.at == b.at && a.generation < b.generation)
}

/// A flow stands in a queue.
pub open spec fn queued(blocked: Seq<(Ready, usize)>, id: Ready) -> bool {
    exists|i: int| 0 <= i < blocked.len() && (#[trigger] blocked[i]).0 == id
}

/// No flow stands in a queue twice.
pub open spec fn each_once(blocked: Seq<(Ready, usize)>) -> bool {
    forall|i: int, j: int|
        0 <= i < j < blocked.len() ==> (#[trigger] blocked[i]).0 != (#[trigger] blocked[j]).0
}

/// Each timer is due before the next.
pub open spec fn in_order(timers: Seq<Timer>) -> bool {
    forall|i: int, j: int|
        0 <= i < j < timers.len() ==> sooner(#[trigger] timers[i], #[trigger] timers[j])
}

/// A queue after a flow has left it.
pub open spec fn without(blocked: Seq<(Ready, usize)>, id: Ready) -> Seq<(Ready, usize)> {
    if queued(blocked, id) {
        blocked.remove(choose|i: int| 0 <= i < blocked.len() && (#[trigger] blocked[i]).0 == id)
    } else {
        blocked
    }
}

/// The timers after a connection's timer has been taken off.
pub open spec fn without_timer(timers: Seq<Timer>, timer: Timer) -> Seq<Timer> {
    timers.remove(choose|i: int| 0 <= i < timers.len() && #[trigger] timers[i] == timer)
}

impl WorkerView {
    pub open spec fn has_tcp(self, id: Ready) -> bool {
        self.tcp.contains_key(flow_key(TCP, id.flow)) && self.tcp[flow_key(TCP, id.flow)].generation
            == id.generation
    }

    pub open spec fn has_udp(self, id: Ready) -> bool {
        self.udp.contains_key(flow_key(UDP, id.flow)) && self.udp[flow_key(UDP, id.flow)].generation
            == id.generation
    }

    /// An incarnation of either kind waits for the writer.
    pub open spec fn waits(self, id: Ready) -> bool {
        ||| self.has_tcp(id) && self.tcp[flow_key(TCP, id.flow)].blocked
        ||| self.has_udp(id) && self.udp[flow_key(UDP, id.flow)].blocked
    }

    /// A connection wants to run at a time.
    pub open spec fn wants(self, timer: Timer) -> bool {
        let id = Ready { flow: timer.flow, generation: timer.generation };
        self.has_tcp(id) && self.tcp[flow_key(TCP, timer.flow)].deadline == Some(timer.at)
    }

    /// Entries stand under the keys of their flows, with generations that were
    /// given out, each once. An association waits for the writer only where the
    /// worker exchanges its datagrams itself.
    pub open spec fn keyed(self) -> bool {
        &&& forall|k: KeyNumbers| #[trigger]
            self.tcp.contains_key(k) ==> k == flow_key(TCP, self.tcp[k].flow)
                && self.tcp[k].generation <= self.generation
        &&& forall|k: KeyNumbers| #[trigger]
            self.udp.contains_key(k) ==> k == flow_key(UDP, self.udp[k].flow)
                && self.udp[k].generation <= self.generation && (self.udp[k].blocked
                ==> self.udp[k].direct)
        &&& forall|j: KeyNumbers, k: KeyNumbers|
            #![trigger self.tcp.contains_key(j), self.tcp.contains_key(k)]
            self.tcp.contains_key(j) && self.tcp.contains_key(k) && j != k
                ==> self.tcp[j].generation != self.tcp[k].generation
        &&& forall|j: KeyNumbers, k: KeyNumbers|
            #![trigger self.tcp.contains_key(j), self.udp.contains_key(k)]
            self.tcp.contains_key(j) && self.udp.contains_key(k) ==> self.tcp[j].generation
                != self.udp[k].generation
    }

    /// The writer's queue holds exactly those that wait for it, each once.
    pub open spec fn queue_exact(self) -> bool {
        &&& each_once(self.blocked)
        &&& forall|id: Ready|
            #![trigger self.waits(id)]
            #![trigger queued(self.blocked, id)]
            self.waits(id) <==> queued(self.blocked, id)
    }

    /// The timers are exactly those that connections want, in order.
    pub open spec fn timers_exact(self) -> bool {
        &&& in_order(self.timers)
        &&& forall|timer: Timer|
            #![trigger self.wants(timer)]
            #![trigger self.timers.contains(timer)]
            self.wants(timer) <==> self.timers.contains(timer)
    }

    pub open spec fn wf(self) -> bool {
        self.keyed() && self.queue_exact() && self.timers_exact()
    }

    /// The flow runs now: it no longer waits for the writer or for a timer.
    pub open spec fn started_tcp(self, id: Ready) -> WorkerView {
        let k = flow_key(TCP, id.flow);
        let entry = self.tcp[k];
        WorkerView {
            tcp: self.tcp.insert(k, TcpEntry { deadline: None, blocked: false, ..entry }),
            timers: match entry.deadline {
                Some(at) => without_timer(
                    self.timers,
                    Timer { at, generation: id.generation, flow: id.flow },
                ),
                None => self.timers,
            },
            blocked: without(self.blocked, id),
            ..self
        }
    }

    pub open spec fn started_udp(self, id: Ready) -> WorkerView {
        let k = flow_key(UDP, id.flow);
        WorkerView {
            udp: self.udp.insert(k, UdpEntry { blocked: false, ..self.udp[k] }),
            blocked: without(self.blocked, id),
            ..self
        }
    }

    /// The connection is gone, and with it its timer and its place in the writer's
    /// queue.
    pub open spec fn removed_tcp(self, id: Ready) -> WorkerView {
        WorkerView {
            tcp: self.tcp.remove(flow_key(TCP, id.flow)),
            ..self.started_tcp(id)
        }
    }

    /// A segment asks for a connection, and the worker still opens some.
    pub open spec fn opens(self, control: TcpControl, acknowledges: bool) -> bool {
        control == TcpControl::Syn && !acknowledges && !self.stopping
    }

    /// A connection is new, and takes the place of the one that is known, if there
    /// is one.
    pub open spec fn opened_tcp(self, id: Ready) -> WorkerView {
        let k = flow_key(TCP, id.flow);
        let rest = if self.tcp.contains_key(k) {
            self.removed_tcp(Ready { flow: id.flow, generation: self.tcp[k].generation })
        } else {
            self
        };
        WorkerView {
            tcp: self.tcp.insert(
                k,
                TcpEntry {
                    flow: id.flow,
                    generation: id.generation,
                    deadline: None,
                    blocked: false,
                },
            ),
            generation: id.generation,
            ..rest
        }
    }

    /// The association is gone, and with it its place in the writer's queue.
    pub open spec fn removed_udp(self, id: Ready) -> WorkerView {
        WorkerView {
            udp: self.udp.remove(flow_key(UDP, id.flow)),
            blocked: without(self.blocked, id),
            ..self
        }
    }
}

/// What becomes of a flow that is ready to run.
#[derive(Clone, Copy, Debug, PartialEq, Eq, Structural)]
pub enum Drive {
    Udp,
    Tcp,
    Gone,
}

/// How far a flow got.
#[derive(Clone, Copy, Debug, PartialEq, Eq, Structural)]
pub enum Progress {
    /// It waits for input, and until a time where there is one.
    Idle(Option<u64>),
    /// It has more to do.
    Again,
    /// It waits for the writer to admit so many bytes.
    Blocked(usize),
    /// It is done.
    Closed,
}

/// What becomes of a packet's flow.
#[derive(Clone, Copy, Debug, PartialEq, Eq, Structural)]
enum Admission {
    /// The flow is known under this generation.
    Existing(u64),
    /// The flow is new and has this generation.
    New(u64),
    /// The packet belongs to no connection and opens none.
    Reject,
    /// The worker stops, and takes no more datagrams.
    Ignore,
}

/// A receive worker's record of its flows.
pub struct Worker {
    tcp: Table<TcpEntry>,
    udp: Table<UdpEntry>,
    timers: Vec<Timer>,
    blocked: VecDeque<(Ready, usize)>,
    generation: u64,
    stopping: bool,
    reported: bool,
}

impl View for Worker {
    type V = WorkerView;

    closed spec fn view(&self) -> WorkerView {
        WorkerView {
            tcp: self.tcp@,
            udp: self.udp@,
            timers: self.timers@,
            blocked: self.blocked@,
            generation: self.generation,
            stopping: self.stopping,
            reported: self.reported,
        }
    }
}

impl Worker {
    pub closed spec fn tables_wf(self) -> bool {
        self.tcp.wf() && self.udp.wf()
    }

    /// The tables are in order, and everything that waits has its place.
    pub open spec fn wf(self) -> bool {
        self.tables_wf() && self@.wf()
    }

    pub fn new() -> (r: Worker)
        ensures
            r.wf(),
            r@.tcp == Map::<KeyNumbers, TcpEntry>::empty(),
            r@.udp == Map::<KeyNumbers, UdpEntry>::empty(),
            r@.timers.len() == 0,
            r@.blocked.len() == 0,
            r@.generation == 0,
            !r@.stopping,
            !r@.reported,
    {
        Worker {
            tcp: Table::new(),
            udp: Table::new(),
            timers: Vec::new(),
            blocked: VecDeque::new(),
            generation: 0,
            stopping: false,
            reported: false,
        }
    }

    /// Takes a flow out of the writer's queue.
    fn leave_queue(&mut self, id: Ready)
        requires
            old(self).tables_wf(),
            old(self)@.queue_exact(),
        ensures
            final(self)@ == (WorkerView { blocked: without(old(self)@.blocked, id), ..old(self)@ }),
            final(self).tables_wf(),
    {
        let mut i: usize = 0;
        while i < self.blocked.len()
            invariant
                i <= self.blocked@.len(),
                *self == *old(self),
                self.tables_wf(),
                self@.queue_exact(),
                forall|j: int| 0 <= j < i ==> (#[trigger] self.blocked@[j]).0 != id,
            decreases self.blocked@.len() - i,
        {
            if self.blocked[i].0 == id {
                proof {
                    assert(queued(self@.blocked, id));
                    let k = choose|k: int|
                        0 <= k < self@.blocked.len() && (#[trigger] self@.blocked[k]).0 == id;
                    assert(k == i);
                }
                let _gone = self.blocked.remove(i);
                return;
            }
            i = i + 1;
        }
    }

    /// Takes a timer off.
    fn cancel_timer(&mut self, timer: Timer)
        requires
            old(self).tables_wf(),
            old(self)@.timers_exact(),
            old(self)@.timers.contains(timer),
        ensures
            final(self)@ == (WorkerView {
                timers: without_timer(old(self)@.timers, timer),
                ..old(self)@
            }),
            final(self).tables_wf(),
    {
        let mut i: usize = 0;
        while i < self.timers.len()
            invariant
                i <= self.timers@.len(),
                *self == *old(self),
                self.tables_wf(),
                self@.timers_exact(),
                self@.timers.contains(timer),
                forall|j: int| 0 <= j < i ==> #[trigger] self.timers@[j] != timer,
            decreases self.timers@.len() - i,
        {
            if self.timers[i] == timer {
                proof {
                    let k = choose|k: int|
                        0 <= k < self@.timers.len() && #[trigger] self@.timers[k] == timer;
                    assert(k == i) by {
                        if k < i {
                        } else if k > i {
                            assert(sooner(self@.timers[i as int], self@.timers[k]));
                        }
                    }
                }
                let _gone = self.timers.remove(i);
                return;
            }
            i = i + 1;
        }
    }

    /// Starts a turn of a flow that is ready to run: it leaves the writer's queue
    /// and its timer is taken off, since input can supersede either wait. The
    /// event of an incarnation that is gone starts nothing.
    pub fn drive(&mut self, id: Ready) -> (r: Drive)
        requires
            old(self).wf(),
        ensures
            final(self).wf(),
            r == (if old(self)@.has_udp(id) && old(self)@.udp[flow_key(UDP, id.flow)].direct {
                Drive::Udp
            } else if old(self)@.has_tcp(id) {
                Drive::Tcp
            } else {
                Drive::Gone
            }),
            final(self)@ == match r {
                Drive::Udp => old(self)@.started_udp(id),
                Drive::Tcp => old(self)@.started_tcp(id),
                Drive::Gone => old(self)@,
            },
    {
        let udp_key: KeyNumbers = key_of(UDP, &id.flow);
        if let Some(entry) = self.udp.get(udp_key) {
            let entry: UdpEntry = *entry;
            if entry.generation == id.generation && entry.direct {
                proof {
                    lemma_started_udp(self@, id);
                }
                self.leave_queue(id);
                self.udp.insert(udp_key, UdpEntry { blocked: false, ..entry });
                return Drive::Udp;
            }
        }
        let tcp_key: KeyNumbers = key_of(TCP, &id.flow);
        if let Some(entry) = self.tcp.get(tcp_key) {
            let entry: TcpEntry = *entry;
            if entry.generation == id.generation {
                proof {
                    lemma_started_tcp(self@, id);
                }
                if let Some(at) = entry.deadline {
                    let timer = Timer { at, generation: id.generation, flow: id.flow };
                    assert(self@.wants(timer));
                    self.cancel_timer(timer);
                }
                self.leave_queue(id);
                self.tcp.insert(tcp_key, TcpEntry { deadline: None, blocked: false, ..entry });
                return Drive::Tcp;
            }
        }
        Drive::Gone
    }

    /// Ends a turn of an association: it waits for the writer, or it is gone, or
    /// nothing more is known of it.
    pub fn settle_udp(&mut self, id: Ready, progress: Progress)
        requires
            old(self).wf(),
            old(self)@.has_udp(id),
            old(self)@.udp[flow_key(UDP, id.flow)].direct,
            !old(self)@.udp[flow_key(UDP, id.flow)].blocked,
        ensures
            final(self).wf(),
            final(self)@ == old(self)@.settled_udp(id, progress),
    {
        let key: KeyNumbers = key_of(UDP, &id.flow);
        match progress {
            Progress::Blocked(bytes) => {
                if let Some(entry) = self.udp.get(key) {
                    let entry: UdpEntry = *entry;
                    proof {
                        lemma_blocked_udp(self@, id, bytes);
                    }
                    self.udp.insert(key, UdpEntry { blocked: true, ..entry });
                    self.blocked.push_back((id, bytes));
                }
            },
            Progress::Closed => {
                proof {
                    lemma_closed_udp(self@, id);
                }
                self.udp.remove(key);
            },
            _ => {},
        }
    }

    /// Ends a turn of a connection. It waits for a time or for the writer, or it
    /// is gone. Tells whether it has to be woken at once. The timers are those
    /// that the connections want (see `WorkerView::timers_exact`).
    pub fn settle_tcp(&mut self, id: Ready, progress: Progress) -> (r: bool)
        requires
            old(self).wf(),
            old(self)@.has_tcp(id),
            old(self)@.tcp[flow_key(TCP, id.flow)].deadline is None,
            !old(self)@.tcp[flow_key(TCP, id.flow)].blocked,
        ensures
            final(self).wf(),
            r == (progress == Progress::Again),
            final(self)@ == old(self)@.settled_tcp(id, progress, final(self)@.timers),
            !(progress matches Progress::Idle(Some(_))) ==> final(self)@.timers == old(
                self)@.timers,
    {
        let key: KeyNumbers = key_of(TCP, &id.flow);
        match progress {
            Progress::Idle(deadline) => {
                if let Some(entry) = self.tcp.get(key) {
                    let entry: TcpEntry = *entry;
                    if let Some(at) = deadline {
                        let timer = Timer { at, generation: id.generation, flow: id.flow };
                        let i: usize = self.due_before(timer);
                        let ghost before = self@;
                        self.timers.insert(i, timer);
                        self.tcp.insert(key, TcpEntry { deadline, ..entry });
                        proof {
                            lemma_timed_tcp(before, self@, id, at, i as int);
                        }
                    } else {
                        assert(self@.tcp.insert(key, entry) =~= self@.tcp);
                    }
                }
                false
            },
            Progress::Again => true,
            Progress::Blocked(bytes) => {
                if let Some(entry) = self.tcp.get(key) {
                    let entry: TcpEntry = *entry;
                    proof {
                        lemma_blocked_tcp(self@, id, bytes);
                    }
                    self.tcp.insert(key, TcpEntry { blocked: true, ..entry });
                    self.blocked.push_back((id, bytes));
                }
                false
            },
            Progress::Closed => {
                proof {
                    lemma_closed_tcp(self@, id);
                }
                self.tcp.remove(key);
                false
            },
        }
    }

    /// How many timers are due before one.
    fn due_before(&self, timer: Timer) -> (r: usize)
        requires
            self@.timers_exact(),
        ensures
            r <= self.timers@.len(),
            forall|j: int| 0 <= j < r ==> sooner(#[trigger] self.timers@[j], timer),
            forall|j: int|
                r <= j < self.timers@.len() ==> !sooner(#[trigger] self.timers@[j], timer),
    {
        let mut i: usize = 0;
        while i < self.timers.len()
            invariant
                i <= self.timers@.len(),
                self@.timers_exact(),
                forall|j: int| 0 <= j < i ==> sooner(#[trigger] self.timers@[j], timer),
            decreases self.timers@.len() - i,
        {
            let other: Timer = self.timers[i];
            if !(other.at < timer.at || (other.at == timer.at && other.generation
                < timer.generation)) {
                proof {
                    assert forall|j: int| i <= j < self.timers@.len() implies !sooner(
                        #[trigger] self.timers@[j],
                        timer,
                    ) by {
                        if j > i {
                            assert(sooner(self@.timers[i as int], self@.timers[j]));
                        }
                    }
                }
                return i;
            }
            i = i + 1;
        }
        i
    }

    /// When the next connection wants to run.
    pub fn deadline(&self) -> (r: Option<u64>)
        requires
            self.wf(),
        ensures
            r == (if self@.timers.len() > 0 {
                Some(self@.timers[0].at)
            } else {
                None
            }),
            forall|timer: Timer| #[trigger]
                self@.wants(timer) ==> (r matches Some(at) && at <= timer.at),
    {
        proof {
            assert forall|timer: Timer| #[trigger] self@.wants(timer) implies self@.timers.len() > 0
                && self@.timers[0].at <= timer.at by {
                assert(self@.timers.contains(timer));
                let i = choose|i: int| 0 <= i < self@.timers.len() && self@.timers[i] == timer;
                if i > 0 {
                    assert(sooner(self@.timers[0], self@.timers[i]));
                }
            }
        }
        if self.timers.len() > 0 {
            Some(self.timers[0].at)
        } else {
            None
        }
    }

    /// The connection to drive when the next deadline has come.
    fn due(&self) -> (r: Option<Ready>)
        requires
            self.wf(),
        ensures
            r is Some == (self@.timers.len() > 0),
            r matches Some(id) ==> id == (Ready {
                flow: self@.timers[0].flow,
                generation: self@.timers[0].generation,
            }) && self@.has_tcp(id),
    {
        if self.timers.len() > 0 {
            let timer: Timer = self.timers[0];
            assert(self@.timers.contains(self@.timers[0]));
            assert(self@.wants(self@.timers[0]));
            Some(Ready { flow: timer.flow, generation: timer.generation })
        } else {
            None
        }
    }

    /// Who waits longest for the writer, and for how many bytes. It is driven once
    /// the writer admits them.
    pub fn first_blocked(&self) -> (r: Option<(Ready, usize)>)
        requires
            self.wf(),
        ensures
            r == (if self@.blocked.len() > 0 {
                Some(self@.blocked[0])
            } else {
                None
            }),
            r matches Some(first) ==> self@.waits(first.0),
    {
        if self.blocked.len() > 0 {
            assert(queued(self@.blocked, self@.blocked[0].0));
            Some(self.blocked[0])
        } else {
            None
        }
    }

    /// Forgets a connection, with its timer and its place in the writer's queue.
    fn forget_tcp(&mut self, id: Ready)
        requires
            old(self).wf(),
            old(self)@.has_tcp(id),
        ensures
            final(self).wf(),
            final(self)@ == old(self)@.removed_tcp(id),
    {
        let key: KeyNumbers = key_of(TCP, &id.flow);
        if let Some(entry) = self.tcp.get(key) {
            let entry: TcpEntry = *entry;
            proof {
                lemma_started_tcp(self@, id);
                lemma_closed_tcp(self@.started_tcp(id), id);
                let k = flow_key(TCP, id.flow);
                assert(self@.started_tcp(id).tcp.remove(k) =~= self@.tcp.remove(k));
            }
            if let Some(at) = entry.deadline {
                let timer = Timer { at, generation: id.generation, flow: id.flow };
                assert(self@.wants(timer));
                self.cancel_timer(timer);
            }
            self.leave_queue(id);
            self.tcp.remove(key);
        }
    }

    /// Finds or opens the connection of a segment. Only a connection request opens
    /// one, and none is opened once the worker stops. A known connection gives its
    /// place up only where it has closed in both directions, expects `waiting` as
    /// the peer's next number, and the request comes after that.
    fn admit_tcp(
        &mut self,
        flow: Flow,
        control: TcpControl,
        acknowledges: bool,
        sequence: u32,
        waiting: Option<u32>,
    ) -> (r: Admission)
        requires
            old(self).wf(),
            old(self)@.generation < u64::MAX,
        ensures
            final(self).wf(),
            r == (if old(self)@.tcp.contains_key(flow_key(TCP, flow)) && !(old(self)@.opens(
                control,
                acknowledges,
            ) && reuses(sequence, waiting)) {
                Admission::Existing(old(self)@.tcp[flow_key(TCP, flow)].generation)
            } else if !old(self)@.opens(control, acknowledges) {
                Admission::Reject
            } else {
                Admission::New((old(self)@.generation + 1) as u64)
            }),
            final(self)@ == match r {
                Admission::New(generation) => old(self)@.opened_tcp(Ready { flow, generation }),
                _ => old(self)@,
            },
    {
        let key: KeyNumbers = key_of(TCP, &flow);
        let ghost before = self@;
        let opens: bool = control == TcpControl::Syn && !acknowledges && !self.stopping;
        if let Some(entry) = self.tcp.get(key) {
            let known: u64 = entry.generation;
            let replaces: bool = match waiting {
                Some(next) => follows(sequence, next),
                None => false,
            };
            if !opens || !replaces {
                return Admission::Existing(known);
            }
            self.forget_tcp(Ready { flow, generation: known });
        }
        if !opens {
            return Admission::Reject;
        }
        let generation: u64 = self.generation + 1;
        proof {
            lemma_new_tcp(self@, flow);
        }
        self.generation = generation;
        self.tcp.insert(key, TcpEntry { flow, generation, deadline: None, blocked: false });
        proof {
            let entry = TcpEntry { flow, generation, deadline: None, blocked: false };
            assert(before.tcp.remove(key).insert(key, entry) =~= before.tcp.insert(key, entry));
        }
        Admission::New(generation)
    }

    /// Finds or opens the association of a datagram. `closed` tells that the one
    /// which is known has ended; a new one takes its place.
    fn admit_udp(&mut self, flow: Flow, closed: bool) -> (r: Admission)
        requires
            old(self).wf(),
            old(self)@.generation < u64::MAX,
        ensures
            final(self).wf(),
            r == (if old(self)@.stopping {
                Admission::Ignore
            } else if old(self)@.udp.contains_key(flow_key(UDP, flow)) && !closed {
                Admission::Existing(old(self)@.udp[flow_key(UDP, flow)].generation)
            } else {
                Admission::New((old(self)@.generation + 1) as u64)
            }),
            final(self)@ == match r {
                Admission::New(generation) => {
                    let known = old(self)@.udp[flow_key(UDP, flow)];
                    WorkerView {
                        udp: old(self)@.udp.insert(
                            flow_key(UDP, flow),
                            UdpEntry { flow, generation, direct: false, blocked: false },
                        ),
                        blocked: if old(self)@.udp.contains_key(flow_key(UDP, flow)) {
                            without(
                                old(self)@.blocked,
                                Ready { flow, generation: known.generation },
                            )
                        } else {
                            old(self)@.blocked
                        },
                        generation,
                        ..old(self)@
                    }
                },
                _ => old(self)@,
            },
    {
        if self.stopping {
            return Admission::Ignore;
        }
        let key: KeyNumbers = key_of(UDP, &flow);
        let ghost before = self@;
        if let Some(entry) = self.udp.get(key) {
            let entry: UdpEntry = *entry;
            if !closed {
                return Admission::Existing(entry.generation);
            }
            let id = Ready { flow, generation: entry.generation };
            proof {
                lemma_removed_udp(self@, id);
            }
            self.leave_queue(id);
            self.udp.remove(key);
        }
        let generation: u64 = self.generation + 1;
        proof {
            lemma_new_udp(self@, flow);
        }
        self.generation = generation;
        self.udp.insert(key, UdpEntry { flow, generation, direct: false, blocked: false });
        proof {
            let entry = UdpEntry { flow, generation, direct: false, blocked: false };
            assert(before.udp.remove(key).insert(key, entry) =~= before.udp.insert(key, entry));
        }
        Admission::New(generation)
    }

    /// An association has ended. The end of an incarnation that another has
    /// replaced changes nothing.
    fn completed(&mut self, id: Ready)
        requires
            old(self).wf(),
        ensures
            final(self).wf(),
            final(self)@ == (if old(self)@.has_udp(id) {
                old(self)@.removed_udp(id)
            } else {
                old(self)@
            }),
    {
        let key: KeyNumbers = key_of(UDP, &id.flow);
        if let Some(entry) = self.udp.get(key) {
            if entry.generation == id.generation {
                proof {
                    lemma_removed_udp(self@, id);
                }
                self.leave_queue(id);
                self.udp.remove(key);
            }
        }
    }

    /// Hands an association's socket to the worker. Tells whether it still wants
    /// it.
    fn transferred(&mut self, id: Ready, closed: bool) -> (r: bool)
        requires
            old(self).wf(),
        ensures
            final(self).wf(),
            r == (old(self)@.has_udp(id) && !closed),
            final(self)@ == (if r {
                WorkerView {
                    udp: old(self)@.udp.insert(
                        flow_key(UDP, id.flow),
                        UdpEntry { direct: true, ..old(self)@.udp[flow_key(UDP, id.flow)] },
                    ),
                    ..old(self)@
                }
            } else {
                old(self)@
            }),
    {
        let key: KeyNumbers = key_of(UDP, &id.flow);
        if let Some(entry) = self.udp.get(key) {
            let entry: UdpEntry = *entry;
            if entry.generation == id.generation && !closed {
                proof {
                    lemma_direct_udp(self@, id);
                }
                self.udp.insert(key, UdpEntry { direct: true, ..entry });
                return true;
            }
        }
        false
    }

    /// Starts the shutdown: all associations end, and only connections still wait
    /// for the writer. Returns the connections, which have to be woken.
    pub fn stop(&mut self) -> (r: Vec<Ready>)
        requires
            old(self).wf(),
        ensures
            final(self).wf(),
            final(self)@.stopping,
            final(self)@.udp == Map::<KeyNumbers, UdpEntry>::empty(),
            final(self)@.tcp == old(self)@.tcp,
            final(self)@.timers == old(self)@.timers,
            final(self)@.generation == old(self)@.generation,
            final(self)@.reported == old(self)@.reported,
            final(self)@.blocked == old(self)@.blocked.filter(
                |b: (Ready, usize)| old(self)@.has_tcp(b.0),
            ),
            forall|id: Ready| old(self)@.has_tcp(id) ==> #[trigger] r@.contains(id),
            forall|i: int| 0 <= i < r@.len() ==> old(self)@.has_tcp(#[trigger] r@[i]),
    {
        let ghost before = self@;
        self.stopping = true;
        self.udp = Table::new();
        let mut kept: VecDeque<(Ready, usize)> = VecDeque::new();
        let mut i: usize = 0;
        let ghost keep = |b: (Ready, usize)| before.has_tcp(b.0);
        proof {
            reveal(Seq::filter);
            assert(before.blocked.take(0) =~= Seq::<(Ready, usize)>::empty());
        }
        while i < self.blocked.len()
            invariant
                i <= self.blocked@.len(),
                self.tables_wf(),
                self@ == (WorkerView {
                    udp: Map::<KeyNumbers, UdpEntry>::empty(),
                    stopping: true,
                    ..before
                }),
                self.blocked@ == before.blocked,
                keep == (|b: (Ready, usize)| before.has_tcp(b.0)),
                kept@ == before.blocked.take(i as int).filter(keep),
            decreases self.blocked@.len() - i,
        {
            let waiting: (Ready, usize) = self.blocked[i];
            let live: bool = match self.tcp.get(key_of(TCP, &waiting.0.flow)) {
                Some(entry) => entry.generation == waiting.0.generation,
                None => false,
            };
            proof {
                reveal(Seq::filter);
                assert(before.blocked.take(i as int + 1).drop_last() =~= before.blocked.take(
                    i as int,
                ));
                assert(keep(before.blocked[i as int]) == live);
            }
            if live {
                kept.push_back(waiting);
            }
            i = i + 1;
        }
        proof {
            assert(before.blocked.take(i as int) =~= before.blocked);
        }
        self.blocked = kept;
        proof {
            lemma_stopped(before, self@);
        }
        let mut ids: Vec<Ready> = Vec::new();
        let mut row: usize = 0;
        let rows: usize = self.tcp.len();
        while row < rows
            invariant
                self.wf(),
                self@.tcp == before.tcp,
                before.keyed(),
                rows == self.tcp.spec_len(),
                row <= rows,
                forall|j: int|
                    0 <= j < row ==> ids@.contains(
                        id_of(before.tcp[#[trigger] self.tcp.spec_key(j)]),
                    ),
                forall|j: int| 0 <= j < ids@.len() ==> before.has_tcp(#[trigger] ids@[j]),
            decreases rows - row,
        {
            let key: KeyNumbers = self.tcp.key_at(row);
            let ghost had = ids@;
            if let Some(entry) = self.tcp.get(key) {
                let id = Ready { flow: entry.flow, generation: entry.generation };
                ids.push(id);
                proof {
                    assert(before.has_tcp(id));
                    assert(ids@[had.len() as int] == id);
                    assert forall|j: int| 0 <= j < row + 1 implies ids@.contains(
                        id_of(before.tcp[#[trigger] self.tcp.spec_key(j)]),
                    ) by {
                        if j < row {
                            let x = id_of(before.tcp[self.tcp.spec_key(j)]);
                            let k = choose|k: int| 0 <= k < had.len() && had[k] == x;
                            assert(ids@[k] == x);
                        }
                    }
                }
            }
            row = row + 1;
        }
        proof {
            assert forall|id: Ready| before.has_tcp(id) implies #[trigger] ids@.contains(id) by {
                let k = flow_key(TCP, id.flow);
                self.tcp.lemma_rows(k);
                let j = choose|j: int|
                    0 <= j < self.tcp.spec_len() && #[trigger] self.tcp.spec_key(j) == k;
                assert(ids@.contains(id_of(before.tcp[self.tcp.spec_key(j)])));
                broadcast use lemma_flow_keys_differ;

                assert(before.tcp[k].flow == id.flow);
            }
        }
        ids
    }

    /// Whether the worker has to report now that its last connection has ended
    /// after the shutdown started. It does so once.
    pub fn report_drained(&mut self) -> (r: bool)
        requires
            old(self).wf(),
        ensures
            final(self).wf(),
            r == (old(self)@.stopping && !old(self)@.reported && old(self)@.tcp =~= Map::<
                KeyNumbers,
                TcpEntry,
            >::empty()),
            final(self)@ == (WorkerView {
                reported: old(self)@.reported || r,
                ..old(self)@
            }),
    {
        if self.stopping && !self.reported && self.tcp.len() == 0 {
            let ghost before = self@;
            self.reported = true;
            proof {
                lemma_same(before, self@);
            }
            return true;
        }
        false
    }
}

/// The incarnation of a connection.
pub open spec fn id_of(entry: TcpEntry) -> Ready {
    Ready { flow: entry.flow, generation: entry.generation }
}

impl WorkerView {
    /// An association after its turn.
    pub open spec fn settled_udp(self, id: Ready, progress: Progress) -> WorkerView {
        let k = flow_key(UDP, id.flow);
        match progress {
            Progress::Blocked(bytes) => WorkerView {
                udp: self.udp.insert(k, UdpEntry { blocked: true, ..self.udp[k] }),
                blocked: self.blocked.push((id, bytes)),
                ..self
            },
            Progress::Closed => WorkerView { udp: self.udp.remove(k), ..self },
            _ => self,
        }
    }

    /// A connection after its turn, with the timers that the connections then
    /// want.
    pub open spec fn settled_tcp(
        self,
        id: Ready,
        progress: Progress,
        timers: Seq<Timer>,
    ) -> WorkerView {
        let k = flow_key(TCP, id.flow);
        match progress {
            Progress::Idle(deadline) => WorkerView {
                tcp: self.tcp.insert(k, TcpEntry { deadline, ..self.tcp[k] }),
                timers,
                ..self
            },
            Progress::Again => self,
            Progress::Blocked(bytes) => WorkerView {
                tcp: self.tcp.insert(k, TcpEntry { blocked: true, ..self.tcp[k] }),
                blocked: self.blocked.push((id, bytes)),
                ..self
            },
            Progress::Closed => WorkerView { tcp: self.tcp.remove(k), ..self },
        }
    }
}

/// Leaving a queue changes nothing for the others.
pub proof fn lemma_without(blocked: Seq<(Ready, usize)>, id: Ready)
    requires
        each_once(blocked),
    ensures
        each_once(without(blocked, id)),
        forall|x: Ready| #[trigger]
            queued(without(blocked, id), x) <==> queued(blocked, x) && x != id,
{
    let after = without(blocked, id);
    if queued(blocked, id) {
        let k = choose|i: int| 0 <= i < blocked.len() && (#[trigger] blocked[i]).0 == id;
        assert forall|x: Ready| #[trigger] queued(after, x) <==> queued(blocked, x) && x != id by {
            if queued(after, x) {
                let i = choose|i: int| 0 <= i < after.len() && (#[trigger] after[i]).0 == x;
                let o = if i < k {
                    i
                } else {
                    i + 1
                };
                assert(blocked[o].0 == x);
            }
            if queued(blocked, x) && x != id {
                let o = choose|o: int| 0 <= o < blocked.len() && (#[trigger] blocked[o]).0 == x;
                let i = if o < k {
                    o
                } else {
                    o - 1
                };
                assert(after[i].0 == x);
            }
        }
        assert forall|i: int, j: int| 0 <= i < j < after.len() implies (#[trigger] after[i]).0 != (
        #[trigger] after[j]).0 by {
            let oi = if i < k {
                i
            } else {
                i + 1
            };
            let oj = if j < k {
                j
            } else {
                j + 1
            };
            assert(blocked[oi].0 != blocked[oj].0);
        }
    }
}

/// Joining a queue at its end.
proof fn lemma_queue_push(blocked: Seq<(Ready, usize)>, id: Ready, bytes: usize)
    requires
        each_once(blocked),
        !queued(blocked, id),
    ensures
        each_once(blocked.push((id, bytes))),
        forall|x: Ready| #[trigger]
            queued(blocked.push((id, bytes)), x) <==> queued(blocked, x) || x == id,
{
    let after = blocked.push((id, bytes));
    assert forall|x: Ready| #[trigger] queued(after, x) <==> queued(blocked, x) || x == id by {
        if queued(blocked, x) {
            let i = choose|i: int| 0 <= i < blocked.len() && (#[trigger] blocked[i]).0 == x;
            assert(after[i].0 == x);
        }
        assert(after[blocked.len() as int].0 == id);
        if queued(after, x) && x != id {
            let i = choose|i: int| 0 <= i < after.len() && (#[trigger] after[i]).0 == x;
            assert(blocked[i].0 == x);
        }
    }
    assert forall|i: int, j: int| 0 <= i < j < after.len() implies (#[trigger] after[i]).0 != (
    #[trigger] after[j]).0 by {
        if j == blocked.len() {
            assert(blocked[i].0 != id);
        }
    }
}

/// Taking a timer off changes nothing for the others.
proof fn lemma_without_timer(timers: Seq<Timer>, timer: Timer)
    requires
        in_order(timers),
        timers.contains(timer),
    ensures
        in_order(without_timer(timers, timer)),
        forall|x: Timer| #[trigger]
            without_timer(timers, timer).contains(x) <==> timers.contains(x) && x != timer,
{
    let after = without_timer(timers, timer);
    let k = choose|i: int| 0 <= i < timers.len() && #[trigger] timers[i] == timer;
    assert forall|x: Timer| #[trigger] after.contains(x) <==> timers.contains(x) && x != timer by {
        if after.contains(x) {
            let i = choose|i: int| 0 <= i < after.len() && after[i] == x;
            let o = if i < k {
                i
            } else {
                i + 1
            };
            assert(timers[o] == x);
            if o < k {
                assert(sooner(timers[o], timers[k]));
            } else {
                assert(sooner(timers[k], timers[o]));
            }
        }
        if timers.contains(x) && x != timer {
            let o = choose|o: int| 0 <= o < timers.len() && timers[o] == x;
            let i = if o < k {
                o
            } else {
                o - 1
            };
            assert(after[i] == x);
        }
    }
    assert forall|i: int, j: int| 0 <= i < j < after.len() implies sooner(
        #[trigger] after[i],
        #[trigger] after[j],
    ) by {
        let oi = if i < k {
            i
        } else {
            i + 1
        };
        let oj = if j < k {
            j
        } else {
            j + 1
        };
        assert(sooner(timers[oi], timers[oj]));
    }
}

/// Two views with the same flows and queues.
proof fn lemma_same(v: WorkerView, w: WorkerView)
    requires
        v.wf(),
        w.tcp == v.tcp,
        w.udp == v.udp,
        w.timers == v.timers,
        w.blocked == v.blocked,
        w.generation == v.generation,
    ensures
        w.wf(),
{
    assert forall|id: Ready| w.waits(id) == v.waits(id) by {}
    assert forall|t: Timer| w.wants(t) == v.wants(t) by {}
}

pub proof fn lemma_started_udp(v: WorkerView, id: Ready)
    requires
        v.wf(),
        v.has_udp(id),
    ensures
        v.started_udp(id).wf(),
{
    broadcast use lemma_flow_keys_differ;

    let w = v.started_udp(id);
    lemma_without(v.blocked, id);
    assert forall|x: Ready| #[trigger] w.waits(x) <==> v.waits(x) && x != id by {
        if x == id && v.has_tcp(id) {
            assert(v.tcp.contains_key(flow_key(TCP, id.flow)));
            assert(v.udp.contains_key(flow_key(UDP, id.flow)));
        }
    }
    assert forall|t: Timer| #[trigger] w.wants(t) == v.wants(t) by {}
}

pub proof fn lemma_started_tcp(v: WorkerView, id: Ready)
    requires
        v.wf(),
        v.has_tcp(id),
    ensures
        v.started_tcp(id).wf(),
{
    broadcast use lemma_flow_keys_differ;

    let w = v.started_tcp(id);
    let k = flow_key(TCP, id.flow);
    lemma_without(v.blocked, id);
    assert forall|x: Ready| #[trigger] w.waits(x) <==> v.waits(x) && x != id by {
        if x == id && v.has_udp(id) {
            assert(v.tcp.contains_key(flow_key(TCP, id.flow)));
            assert(v.udp.contains_key(flow_key(UDP, id.flow)));
        }
    }
    match v.tcp[k].deadline {
        Some(at) => {
            let timer = Timer { at, generation: id.generation, flow: id.flow };
            assert(v.wants(timer));
            lemma_without_timer(v.timers, timer);
            assert forall|t: Timer| #[trigger] w.wants(t) <==> v.wants(t) && t != timer by {}
        },
        None => {
            assert forall|t: Timer| #[trigger] w.wants(t) == v.wants(t) by {}
        },
    }
}

pub proof fn lemma_removed_udp(v: WorkerView, id: Ready)
    requires
        v.wf(),
        v.has_udp(id),
    ensures
        v.removed_udp(id).wf(),
{
    broadcast use lemma_flow_keys_differ;

    let w = v.removed_udp(id);
    lemma_without(v.blocked, id);
    assert forall|x: Ready| #[trigger] w.waits(x) <==> v.waits(x) && x != id by {
        if x == id && v.has_tcp(id) {
            assert(v.tcp.contains_key(flow_key(TCP, id.flow)));
            assert(v.udp.contains_key(flow_key(UDP, id.flow)));
        }
    }
    assert forall|t: Timer| #[trigger] w.wants(t) == v.wants(t) by {}
}

proof fn lemma_blocked_udp(v: WorkerView, id: Ready, bytes: usize)
    requires
        v.wf(),
        v.has_udp(id),
        v.udp[flow_key(UDP, id.flow)].direct,
        !v.udp[flow_key(UDP, id.flow)].blocked,
    ensures
        (WorkerView {
            udp: v.udp.insert(
                flow_key(UDP, id.flow),
                UdpEntry { blocked: true, ..v.udp[flow_key(UDP, id.flow)] },
            ),
            blocked: v.blocked.push((id, bytes)),
            ..v
        }).wf(),
{
    broadcast use lemma_flow_keys_differ;

    let k = flow_key(UDP, id.flow);
    let w = WorkerView {
        udp: v.udp.insert(k, UdpEntry { blocked: true, ..v.udp[k] }),
        blocked: v.blocked.push((id, bytes)),
        ..v
    };
    assert(!v.waits(id)) by {
        if v.has_tcp(id) {
            assert(v.tcp.contains_key(flow_key(TCP, id.flow)));
            assert(v.udp.contains_key(k));
        }
    }
    lemma_queue_push(v.blocked, id, bytes);
    assert forall|x: Ready| #[trigger] w.waits(x) <==> v.waits(x) || x == id by {}
    assert forall|t: Timer| #[trigger] w.wants(t) == v.wants(t) by {}
}

proof fn lemma_closed_udp(v: WorkerView, id: Ready)
    requires
        v.wf(),
        v.has_udp(id),
        !v.udp[flow_key(UDP, id.flow)].blocked,
    ensures
        (WorkerView { udp: v.udp.remove(flow_key(UDP, id.flow)), ..v }).wf(),
{
    broadcast use lemma_flow_keys_differ;

    let w = WorkerView { udp: v.udp.remove(flow_key(UDP, id.flow)), ..v };
    assert forall|x: Ready| #[trigger] w.waits(x) <==> v.waits(x) by {}
    assert forall|t: Timer| #[trigger] w.wants(t) == v.wants(t) by {}
}

proof fn lemma_direct_udp(v: WorkerView, id: Ready)
    requires
        v.wf(),
        v.has_udp(id),
    ensures
        (WorkerView {
            udp: v.udp.insert(
                flow_key(UDP, id.flow),
                UdpEntry { direct: true, ..v.udp[flow_key(UDP, id.flow)] },
            ),
            ..v
        }).wf(),
{
    broadcast use lemma_flow_keys_differ;

    let k = flow_key(UDP, id.flow);
    let w = WorkerView { udp: v.udp.insert(k, UdpEntry { direct: true, ..v.udp[k] }), ..v };
    assert forall|x: Ready| #[trigger] w.waits(x) <==> v.waits(x) by {}
    assert forall|t: Timer| #[trigger] w.wants(t) == v.wants(t) by {}
}

proof fn lemma_blocked_tcp(v: WorkerView, id: Ready, bytes: usize)
    requires
        v.wf(),
        v.has_tcp(id),
        !v.tcp[flow_key(TCP, id.flow)].blocked,
    ensures
        v.settled_tcp(id, Progress::Blocked(bytes), v.timers).wf(),
{
    broadcast use lemma_flow_keys_differ;

    let w = v.settled_tcp(id, Progress::Blocked(bytes), v.timers);
    assert(!v.waits(id)) by {
        if v.has_udp(id) {
            assert(v.tcp.contains_key(flow_key(TCP, id.flow)));
            assert(v.udp.contains_key(flow_key(UDP, id.flow)));
        }
    }
    lemma_queue_push(v.blocked, id, bytes);
    assert forall|x: Ready| #[trigger] w.waits(x) <==> v.waits(x) || x == id by {}
    assert forall|t: Timer| #[trigger] w.wants(t) == v.wants(t) by {}
}

proof fn lemma_closed_tcp(v: WorkerView, id: Ready)
    requires
        v.wf(),
        v.has_tcp(id),
        v.tcp[flow_key(TCP, id.flow)].deadline is None,
        !v.tcp[flow_key(TCP, id.flow)].blocked,
    ensures
        v.settled_tcp(id, Progress::Closed, v.timers).wf(),
{
    broadcast use lemma_flow_keys_differ;

    let w = v.settled_tcp(id, Progress::Closed, v.timers);
    assert forall|x: Ready| #[trigger] w.waits(x) <==> v.waits(x) by {}
    assert forall|t: Timer| #[trigger] w.wants(t) == v.wants(t) by {}
}

/// A timer that was put in where it belongs.
proof fn lemma_timed_tcp(v: WorkerView, w: WorkerView, id: Ready, at: u64, i: int)
    requires
        v.wf(),
        v.has_tcp(id),
        v.tcp[flow_key(TCP, id.flow)].deadline is None,
        0 <= i <= v.timers.len(),
        w == v.settled_tcp(id, Progress::Idle(Some(at)), w.timers),
        w.timers == v.timers.insert(
            i,
            Timer { at, generation: id.generation, flow: id.flow },
        ),
        forall|j: int|
            0 <= j < i ==> sooner(
                #[trigger] v.timers[j],
                Timer { at, generation: id.generation, flow: id.flow },
            ),
        forall|j: int|
            i <= j < v.timers.len() ==> !sooner(
                #[trigger] v.timers[j],
                Timer { at, generation: id.generation, flow: id.flow },
            ),
    ensures
        w.wf(),
{
    broadcast use lemma_flow_keys_differ;

    let timer = Timer { at, generation: id.generation, flow: id.flow };
    assert forall|x: Ready| #[trigger] w.waits(x) <==> v.waits(x) by {}
    assert forall|j: int| 0 <= j < v.timers.len() implies (#[trigger] v.timers[j]).generation
        != id.generation by {
        assert(v.timers.contains(v.timers[j]));
        assert(v.wants(v.timers[j]));
        assert(v.tcp.contains_key(flow_key(TCP, v.timers[j].flow)));
        assert(v.tcp.contains_key(flow_key(TCP, id.flow)));
    }
    assert forall|t: Timer| #[trigger] w.wants(t) <==> v.wants(t) || t == timer by {}
    assert forall|t: Timer| #[trigger] w.timers.contains(t) <==> v.timers.contains(t) || t
        == timer by {
        if v.timers.contains(t) {
            let o = choose|o: int| 0 <= o < v.timers.len() && v.timers[o] == t;
            assert(w.timers[if o < i {
                o
            } else {
                o + 1
            }] == t);
        }
        assert(w.timers[i] == timer);
        if w.timers.contains(t) && t != timer {
            let o = choose|o: int| 0 <= o < w.timers.len() && w.timers[o] == t;
            assert(v.timers[if o < i {
                o
            } else {
                o - 1
            }] == t);
        }
    }
    assert forall|x: int, y: int| 0 <= x < y < w.timers.len() implies sooner(
        #[trigger] w.timers[x],
        #[trigger] w.timers[y],
    ) by {
        let ox = if x < i {
            x
        } else {
            x - 1
        };
        let oy = if y < i {
            y
        } else {
            y - 1
        };
        if x != i && y != i {
            assert(sooner(v.timers[ox], v.timers[oy]));
        } else if x == i {
            assert(!sooner(v.timers[oy], timer));
            assert(v.timers[oy].generation != timer.generation);
        } else {
            assert(sooner(v.timers[ox], timer));
        }
    }
}

proof fn lemma_new_tcp(v: WorkerView, flow: Flow)
    requires
        v.wf(),
        v.generation < u64::MAX,
        !v.tcp.contains_key(flow_key(TCP, flow)),
    ensures
        (WorkerView {
            tcp: v.tcp.insert(
                flow_key(TCP, flow),
                TcpEntry {
                    flow,
                    generation: (v.generation + 1) as u64,
                    deadline: None,
                    blocked: false,
                },
            ),
            generation: (v.generation + 1) as u64,
            ..v
        }).wf(),
{
    broadcast use lemma_flow_keys_differ;

    let generation = (v.generation + 1) as u64;
    let w = WorkerView {
        tcp: v.tcp.insert(
            flow_key(TCP, flow),
            TcpEntry { flow, generation, deadline: None, blocked: false },
        ),
        generation,
        ..v
    };
    assert forall|x: Ready| #[trigger] w.waits(x) <==> v.waits(x) by {}
    assert forall|t: Timer| #[trigger] w.wants(t) == v.wants(t) by {}
}

proof fn lemma_new_udp(v: WorkerView, flow: Flow)
    requires
        v.wf(),
        v.generation < u64::MAX,
        !v.udp.contains_key(flow_key(UDP, flow)),
    ensures
        (WorkerView {
            udp: v.udp.insert(
                flow_key(UDP, flow),
                UdpEntry {
                    flow,
                    generation: (v.generation + 1) as u64,
                    direct: false,
                    blocked: false,
                },
            ),
            generation: (v.generation + 1) as u64,
            ..v
        }).wf(),
{
    broadcast use lemma_flow_keys_differ;

    let generation = (v.generation + 1) as u64;
    let w = WorkerView {
        udp: v.udp.insert(
            flow_key(UDP, flow),
            UdpEntry { flow, generation, direct: false, blocked: false },
        ),
        generation,
        ..v
    };
    assert forall|x: Ready| #[trigger] w.waits(x) <==> v.waits(x) by {}
    assert forall|t: Timer| #[trigger] w.wants(t) == v.wants(t) by {}
}

/// What is left of the writer's queue when all associations have ended.
proof fn lemma_stopped(v: WorkerView, w: WorkerView)
    requires
        v.wf(),
        w.tcp == v.tcp,
        w.udp == Map::<KeyNumbers, UdpEntry>::empty(),
        w.timers == v.timers,
        w.generation == v.generation,
        w.blocked == v.blocked.filter(|b: (Ready, usize)| v.has_tcp(b.0)),
    ensures
        w.wf(),
{
    let keep = |b: (Ready, usize)| v.has_tcp(b.0);
    lemma_filtered_queue(v.blocked, keep);
    assert forall|x: Ready| #[trigger] w.waits(x) <==> queued(w.blocked, x) by {
        if w.waits(x) {
            assert(v.waits(x));
            let i = choose|i: int| 0 <= i < v.blocked.len() && (#[trigger] v.blocked[i]).0 == x;
            assert(keep(v.blocked[i]));
            assert(w.blocked.contains(v.blocked[i]));
            let j = choose|j: int| 0 <= j < w.blocked.len() && w.blocked[j] == v.blocked[i];
            assert(w.blocked[j].0 == x);
        }
        if queued(w.blocked, x) {
            let j = choose|j: int| 0 <= j < w.blocked.len() && (#[trigger] w.blocked[j]).0 == x;
            assert(v.blocked.contains(w.blocked[j]));
            let i = choose|i: int| 0 <= i < v.blocked.len() && v.blocked[i] == w.blocked[j];
            assert(v.blocked[i].0 == x);
            assert(queued(v.blocked, x));
            assert(v.has_tcp(x));
            assert(v.tcp.contains_key(flow_key(TCP, x.flow)));
            if v.has_udp(x) {
                assert(v.udp.contains_key(flow_key(UDP, x.flow)));
            }
        }
    }
    assert forall|t: Timer| #[trigger] w.wants(t) == v.wants(t) by {}
}

/// A part of a queue holds nobody twice, and only those whom the queue holds.
proof fn lemma_filtered_queue(
    blocked: Seq<(Ready, usize)>,
    keep: spec_fn((Ready, usize)) -> bool,
)
    requires
        each_once(blocked),
    ensures
        each_once(blocked.filter(keep)),
        forall|j: int|
            0 <= j < blocked.filter(keep).len() ==> blocked.contains(
                #[trigger] blocked.filter(keep)[j],
            ) && keep(blocked.filter(keep)[j]),
        forall|i: int|
            0 <= i < blocked.len() && keep(#[trigger] blocked[i]) ==> blocked.filter(
                keep,
            ).contains(blocked[i]),
    decreases blocked.len(),
{
    reveal(Seq::filter);
    let out = blocked.filter(keep);
    if blocked.len() > 0 {
        let rest = blocked.drop_last();
        let kept = rest.filter(keep);
        lemma_filtered_queue(rest, keep);
        assert forall|j: int| 0 <= j < out.len() implies blocked.contains(#[trigger] out[j]) && keep(
            out[j],
        ) by {
            if j < kept.len() {
                assert(out[j] == kept[j]);
                assert(rest.contains(kept[j]));
                let i = choose|i: int| 0 <= i < rest.len() && rest[i] == kept[j];
                assert(blocked[i] == out[j]);
            } else {
                assert(blocked[blocked.len() - 1] == out[j]);
            }
        }
        assert forall|i: int| 0 <= i < blocked.len() && keep(#[trigger] blocked[i]) implies out.contains(
            blocked[i],
        ) by {
            if i < rest.len() {
                assert(rest[i] == blocked[i]);
                assert(kept.contains(rest[i]));
                let j = choose|j: int| 0 <= j < kept.len() && kept[j] == rest[i];
                assert(out[j] == blocked[i]);
            } else {
                assert(out[out.len() - 1] == blocked[i]);
            }
        }
        assert forall|i: int, j: int| 0 <= i < j < out.len() implies (#[trigger] out[i]).0 != (
        #[trigger] out[j]).0 by {
            if j < kept.len() {
                assert(out[i] == kept[i] && out[j] == kept[j]);
            } else {
                assert(out[i] == kept[i]);
                assert(rest.contains(kept[i]));
                let k = choose|k: int| 0 <= k < rest.len() && rest[k] == kept[i];
                assert(blocked[k].0 != blocked[blocked.len() - 1].0);
            }
        }
    }
}

/// What a whole packet is to a worker.
#[derive(Clone, Copy, Debug, PartialEq, Eq, Structural)]
pub enum Examined {
    /// A transport that does not hold; nothing more is done.
    Invalid,
    /// A protocol that the worker does not carry, or no longer does.
    Other,
    /// A segment of a flow: what it asks for, whether it acknowledges, and its
    /// sequence number.
    Tcp { flow: Flow, control: TcpControl, acknowledges: bool, sequence: u32 },
    /// A datagram of a flow.
    Udp { flow: Flow },
}

/// What a packet with this header and payload is to a worker.
pub open spec fn examined(
    ip: IpHeader,
    payload: Seq<u8>,
    verified: bool,
    stopping: bool,
) -> Examined {
    if ip.protocol == TCP {
        match tcp_segment(ip, payload, verified) {
            Some(segment) => Examined::Tcp {
                flow: segment.0,
                control: segment.1.control,
                acknowledges: segment.1.ack_number is Some,
                sequence: segment.1.seq_number,
            },
            None => Examined::Invalid,
        }
    } else if ip.protocol == UDP && !stopping {
        match udp_datagram(ip, payload, verified) {
            Some(datagram) => Examined::Udp { flow: datagram.0 },
            None => Examined::Invalid,
        }
    } else {
        Examined::Other
    }
}

impl Worker {
    /// Validates the transport of a packet and finds its flow, whose owner goes on
    /// with it. `verified` tells that the device vouches for the checksum. A
    /// worker that stops takes no more datagrams.
    pub fn examine(&self, packet: &Packet<'_>, verified: bool) -> (r: Examined)
        requires
            packet.wf(),
        ensures
            r == examined(packet.ip, packet.payload@, verified, self@.stopping),
    {
        if packet.ip.protocol == TCP {
            match packet.tcp_with_checksum(verified) {
                Some(segment) => Examined::Tcp {
                    flow: segment.flow,
                    control: segment.fields.control,
                    acknowledges: segment.fields.ack_number.is_some(),
                    sequence: segment.fields.seq_number,
                },
                None => Examined::Invalid,
            }
        } else if packet.ip.protocol == UDP && !self.stopping {
            match packet.udp_with_checksum(verified) {
                Some((flow, _)) => Examined::Udp { flow },
                None => Examined::Invalid,
            }
        } else {
            Examined::Other
        }
    }
}

/// What is done with a packet.
#[derive(Clone, Copy, Debug, PartialEq, Eq, Structural)]
pub enum Disposal {
    /// It is dropped, and not counted as processed.
    Drop,
    /// It is counted, and nothing else.
    Ignore,
    /// It goes to the worker that owns its flow.
    Forward,
    /// It is answered with a reset.
    Reject,
    /// It goes to a connection; a new one is made first.
    Tcp { id: Ready, new: bool },
    /// Its datagrams go to an association; a new one is made first.
    Udp { id: Ready, new: bool },
}

impl WorkerView {
    /// What is done with a packet. `mine` tells that the worker owns its flow,
    /// `closed` that the association which is known has ended, and `waiting` that
    /// the connection which is known has closed in both directions, and which
    /// number of the peer it would expect next.
    pub open spec fn disposal(
        self,
        packet: Examined,
        mine: bool,
        closed: bool,
        waiting: Option<u32>,
    ) -> Disposal {
        let next = (self.generation + 1) as u64;
        match packet {
            Examined::Invalid => Disposal::Drop,
            Examined::Other => Disposal::Ignore,
            Examined::Tcp { flow, control, acknowledges, sequence } => {
                let k = flow_key(TCP, flow);
                if !mine {
                    Disposal::Forward
                } else if self.tcp.contains_key(k) && !(self.opens(control, acknowledges)
                    && reuses(sequence, waiting)) {
                    Disposal::Tcp {
                        id: Ready { flow, generation: self.tcp[k].generation },
                        new: false,
                    }
                } else if !self.opens(control, acknowledges) {
                    Disposal::Reject
                } else {
                    Disposal::Tcp { id: Ready { flow, generation: next }, new: true }
                }
            },
            Examined::Udp { flow } => {
                let k = flow_key(UDP, flow);
                if self.stopping {
                    Disposal::Ignore
                } else if !mine {
                    Disposal::Forward
                } else if self.udp.contains_key(k) && !closed {
                    Disposal::Udp {
                        id: Ready { flow, generation: self.udp[k].generation },
                        new: false,
                    }
                } else {
                    Disposal::Udp { id: Ready { flow, generation: next }, new: true }
                }
            },
        }
    }

    /// The worker after a packet: a flow that it opens is known from then on, and
    /// takes the place of one that has ended.
    pub open spec fn after_packet(self, disposal: Disposal) -> WorkerView {
        match disposal {
            Disposal::Tcp { id, new: true } => self.opened_tcp(id),
            Disposal::Udp { id, new: true } => {
                let k = flow_key(UDP, id.flow);
                WorkerView {
                    udp: self.udp.insert(
                        k,
                        UdpEntry {
                            flow: id.flow,
                            generation: id.generation,
                            direct: false,
                            blocked: false,
                        },
                    ),
                    blocked: if self.udp.contains_key(k) {
                        without(
                            self.blocked,
                            Ready { flow: id.flow, generation: self.udp[k].generation },
                        )
                    } else {
                        self.blocked
                    },
                    generation: id.generation,
                    ..self
                }
            },
            _ => self,
        }
    }
}

/// What happens to a worker besides packets.
#[derive(Clone, Copy, Debug, PartialEq, Eq, Structural)]
pub enum Event {
    /// An association has ended.
    Completed(Ready),
    /// An association's socket is offered to the worker; `closed` tells that the
    /// association has ended meanwhile.
    Transfer { id: Ready, closed: bool },
    /// A flow is ready to run.
    Runnable(Ready),
    /// The next timer is due.
    Timer,
    /// The writer admits what the first that waits for it needs.
    Writable,
}

/// What a worker does about an event.
#[derive(Clone, Copy, Debug, PartialEq, Eq, Structural)]
pub enum Response {
    /// Nothing more.
    Wait,
    /// Take the offered socket.
    Take(Ready),
    /// Run a turn of a connection.
    RunTcp(Ready),
    /// Run a turn of an association.
    RunUdp(Ready),
}

impl WorkerView {
    /// Which flow an event runs, if it runs one.
    pub open spec fn runs(self, event: Event) -> Option<Ready> {
        match event {
            Event::Runnable(id) => Some(id),
            Event::Timer => if self.timers.len() > 0 {
                Some(
                    Ready {
                        flow: self.timers[0].flow,
                        generation: self.timers[0].generation,
                    },
                )
            } else {
                None
            },
            Event::Writable => if self.blocked.len() > 0 {
                Some(self.blocked[0].0)
            } else {
                None
            },
            _ => None,
        }
    }

    /// The worker after an event, and what it does about it.
    pub open spec fn after_event(self, event: Event) -> (WorkerView, Response) {
        match event {
            Event::Completed(id) => (
                if self.has_udp(id) {
                    self.removed_udp(id)
                } else {
                    self
                },
                Response::Wait,
            ),
            Event::Transfer { id, closed } => if self.has_udp(id) && !closed {
                let k = flow_key(UDP, id.flow);
                (
                    WorkerView {
                        udp: self.udp.insert(k, UdpEntry { direct: true, ..self.udp[k] }),
                        ..self
                    },
                    Response::Take(id),
                )
            } else {
                (self, Response::Wait)
            },
            _ => match self.runs(event) {
                Some(id) => if self.has_udp(id) && self.udp[flow_key(UDP, id.flow)].direct {
                    (self.started_udp(id), Response::RunUdp(id))
                } else if self.has_tcp(id) {
                    (self.started_tcp(id), Response::RunTcp(id))
                } else {
                    (self, Response::Wait)
                },
                None => (self, Response::Wait),
            },
        }
    }
}

impl Worker {
    /// Decides what is done with a packet whose flow has been found. Only a
    /// connection request opens a connection, and a worker that stops opens
    /// nothing. A later request of a flow whose connection has closed in both
    /// directions opens the next one in its place.
    pub fn packet(
        &mut self,
        packet: Examined,
        mine: bool,
        closed: bool,
        waiting: Option<u32>,
    ) -> (r: Disposal)
        requires
            old(self).wf(),
            old(self)@.generation < u64::MAX,
        ensures
            final(self).wf(),
            r == old(self)@.disposal(packet, mine, closed, waiting),
            final(self)@ == old(self)@.after_packet(r),
    {
        match packet {
            Examined::Invalid => Disposal::Drop,
            Examined::Other => Disposal::Ignore,
            Examined::Tcp { flow, control, acknowledges, sequence } => {
                if !mine {
                    return Disposal::Forward;
                }
                match self.admit_tcp(flow, control, acknowledges, sequence, waiting) {
                    Admission::Existing(generation) => Disposal::Tcp {
                        id: Ready { flow, generation },
                        new: false,
                    },
                    Admission::New(generation) => Disposal::Tcp {
                        id: Ready { flow, generation },
                        new: true,
                    },
                    _ => Disposal::Reject,
                }
            },
            Examined::Udp { flow } => {
                if self.stopping {
                    return Disposal::Ignore;
                }
                if !mine {
                    return Disposal::Forward;
                }
                match self.admit_udp(flow, closed) {
                    Admission::Existing(generation) => Disposal::Udp {
                        id: Ready { flow, generation },
                        new: false,
                    },
                    Admission::New(generation) => Disposal::Udp {
                        id: Ready { flow, generation },
                        new: true,
                    },
                    _ => Disposal::Ignore,
                }
            },
        }
    }

    /// Takes notice of an event. A flow that it runs no longer waits for anything
    /// else; an event of an incarnation that is gone runs nothing.
    pub fn on(&mut self, event: Event) -> (r: Response)
        requires
            old(self).wf(),
        ensures
            final(self).wf(),
            (final(self)@, r) == old(self)@.after_event(event),
    {
        let ready: Option<Ready> = match event {
            Event::Completed(id) => {
                self.completed(id);
                return Response::Wait;
            },
            Event::Transfer { id, closed } => {
                if self.transferred(id, closed) {
                    return Response::Take(id);
                }
                return Response::Wait;
            },
            Event::Runnable(id) => Some(id),
            Event::Timer => self.due(),
            Event::Writable => match self.first_blocked() {
                Some(first) => Some(first.0),
                None => None,
            },
        };
        match ready {
            Some(id) => match self.drive(id) {
                Drive::Udp => Response::RunUdp(id),
                Drive::Tcp => Response::RunTcp(id),
                Drive::Gone => Response::Wait,
            },
            None => Response::Wait,
        }
    }
}

/// A flow that a packet opens has a generation that no known flow has, nor had
/// before.
pub proof fn law_generations_do_not_repeat(
    v: WorkerView,
    packet: Examined,
    closed: bool,
    waiting: Option<u32>,
    k: KeyNumbers,
)
    requires
        v.wf(),
        v.generation < u64::MAX,
    ensures
        ({
            let disposal = v.disposal(packet, true, closed, waiting);
            let opened = match disposal {
                Disposal::Tcp { id, new: true } => Some(id.generation),
                Disposal::Udp { id, new: true } => Some(id.generation),
                _ => None,
            };
            opened matches Some(generation) ==> {
                &&& generation > v.generation
                &&& v.after_packet(disposal).generation == generation
                &&& v.tcp.contains_key(k) ==> v.tcp[k].generation < generation
                &&& v.udp.contains_key(k) ==> v.udp[k].generation < generation
            }
        }),
{
}

/// A duplicate of an old connection request opens nothing: one whose number lies
/// before those that the connection has received, the last of them its peer's end,
/// goes to the connection that is known, and leaves the worker as it was.
pub proof fn law_old_requests_open_nothing(
    v: WorkerView,
    flow: Flow,
    first: u32,
    received: int,
    closed: bool,
)
    requires
        v.tcp.contains_key(flow_key(TCP, flow)),
        0 <= received <= 0x8000_0000,
    ensures
        ({
            let request = Examined::Tcp {
                flow,
                control: TcpControl::Syn,
                acknowledges: false,
                sequence: first,
            };
            let next = ((first + received) % 0x1_0000_0000) as u32;
            let disposal = v.disposal(request, true, closed, Some(next));
            &&& disposal == Disposal::Tcp {
                id: Ready { flow, generation: v.tcp[flow_key(TCP, flow)].generation },
                new: false,
            }
            &&& v.after_packet(disposal) == v
        }),
{
}

/// A connection request that comes after all that a closed connection has received
/// opens the next incarnation of its flow. Nothing waits for the old one any more,
/// its events reach nothing, and all other flows stay as they were.
pub proof fn law_later_requests_open_the_next_incarnation(
    v: WorkerView,
    flow: Flow,
    next: u32,
    ahead: int,
    closed: bool,
    other: KeyNumbers,
)
    requires
        v.wf(),
        v.generation < u64::MAX,
        !v.stopping,
        v.tcp.contains_key(flow_key(TCP, flow)),
        0 < ahead < 0x8000_0000,
        other != flow_key(TCP, flow),
    ensures
        ({
            let request = Examined::Tcp {
                flow,
                control: TcpControl::Syn,
                acknowledges: false,
                sequence: ((next + ahead) % 0x1_0000_0000) as u32,
            };
            let old = Ready { flow, generation: v.tcp[flow_key(TCP, flow)].generation };
            let new = Ready { flow, generation: (v.generation + 1) as u64 };
            let disposal = v.disposal(request, true, closed, Some(next));
            let after = v.after_packet(disposal);
            &&& disposal == Disposal::Tcp { id: new, new: true }
            &&& after.has_tcp(new)
            &&& !after.has_tcp(old)
            &&& !queued(after.blocked, old)
            &&& forall|at: u64| !after.timers.contains(
                Timer { at, generation: old.generation, flow },
            )
            &&& after.tcp.contains_key(other) == v.tcp.contains_key(other)
            &&& v.tcp.contains_key(other) ==> after.tcp[other] == v.tcp[other]
            &&& after.udp == v.udp
        }),
{
    broadcast use lemma_flow_keys_differ;

    let old = Ready { flow, generation: v.tcp[flow_key(TCP, flow)].generation };
    lemma_started_tcp(v, old);
    let started = v.started_tcp(old);
    assert(!started.waits(old)) by {
        if started.has_udp(old) {
            assert(started.tcp.contains_key(flow_key(TCP, flow)));
            assert(started.udp.contains_key(flow_key(UDP, flow)));
        }
    }
    assert forall|at: u64| !started.timers.contains(
        Timer { at, generation: old.generation, flow },
    ) by {
        assert(!started.wants(Timer { at, generation: old.generation, flow }));
    }
}

/// Whoever waits longest for the writer is run when it admits what they need, and
/// whoever wants to run first when its time has come.
pub proof fn law_waits_end_in_a_turn(v: WorkerView)
    requires
        v.wf(),
    ensures
        v.blocked.len() > 0 ==> ({
            let id = v.blocked[0].0;
            v.after_event(Event::Writable).1 == Response::RunTcp(id) || v.after_event(
                Event::Writable,
            ).1 == Response::RunUdp(id)
        }),
        v.timers.len() > 0 ==> ({
            let id = Ready { flow: v.timers[0].flow, generation: v.timers[0].generation };
            v.after_event(Event::Timer).1 == Response::RunTcp(id)
        }),
{
    if v.blocked.len() > 0 {
        assert(queued(v.blocked, v.blocked[0].0));
        assert(v.waits(v.blocked[0].0));
        let id = v.blocked[0].0;
        if v.has_udp(id) {
            assert(v.udp.contains_key(flow_key(UDP, id.flow)));
        }
    }
    if v.timers.len() > 0 {
        assert(v.timers.contains(v.timers[0]));
        assert(v.wants(v.timers[0]));
        let id = Ready { flow: v.timers[0].flow, generation: v.timers[0].generation };
        assert(v.tcp.contains_key(flow_key(TCP, id.flow)));
        if v.has_udp(id) {
            assert(v.udp.contains_key(flow_key(UDP, id.flow)));
        }
    }
}

/// What one worker hands to another: a frame as it came, or a datagram that was put
/// together.
pub enum Forwarded {
    Frame(Received),
    Reassembled(Packet<'static>),
}

impl Forwarded {
    /// What it counts for in the other worker's inbox.
    pub fn size(&self) -> (r: usize)
        ensures
            r == match *self {
                Forwarded::Frame(frame) => contents(frame.bytes).len(),
                Forwarded::Reassembled(packet) => packet.payload@.len(),
            },
    {
        match self {
            Forwarded::Frame(frame) => frame.bytes.len(),
            Forwarded::Reassembled(packet) => packet.storage_size(),
        }
    }
}

/// What a frame says, and what selects the worker that owns it. Frames without a
/// valid packet or without a route are dropped.
pub fn routed<'a>(bytes: &'a [u8]) -> (r: Option<(Parsed<'a>, RouteKey)>)
    ensures
        r is Some == (spec_parse(bytes@) is Some && spec_route(spec_parse(bytes@)->0) is Some),
        r matches Some(found) ==> spec_parse(bytes@) == Some(found.0@) && spec_route(found.0@)
            == Some(found.1) && found.0@.wf(),
{
    let parsed = parse(bytes)?;
    let key = parsed.route()?;
    Some((parsed, key))
}

/// What becomes of a frame that a worker has read.
pub enum Framed<'a> {
    /// It goes to the worker that owns it, as it is.
    Forward,
    /// It is a part of a datagram that is not complete.
    Wait,
    /// It is a whole packet, or completes one.
    Whole(Packet<'a>),
}

/// Takes a frame in. `mine` tells that the worker owns it; the parts of one
/// datagram thus meet in one decoder.
pub fn frame<'a>(
    parsed: Parsed<'a>,
    mine: bool,
    decoder: &mut Decoder,
    limits: &mut Limits,
    now: u64,
) -> (r: Framed<'a>)
    requires
        parsed@.wf(),
        old(decoder).wf(),
        leased(old(decoder)@) <= old(limits).used,
        now + REASSEMBLY_LIFETIME <= u64::MAX,
    ensures
        final(decoder).wf(),
        leased(final(decoder)@) <= final(limits).used,
        r is Forward == !mine,
        !mine ==> final(decoder)@ == old(decoder)@ && *final(limits) == *old(limits),
        mine ==> ({
            let after = decoded(
                old(decoder)@,
                *old(limits),
                Some(parsed@),
                now,
                (now + REASSEMBLY_LIFETIME) as u64,
                None,
            );
            &&& final(decoder)@ == after.0
            &&& *final(limits) == after.1
            &&& r is Whole == after.2 is Some
            &&& r matches Framed::Whole(packet) ==> packet.wf() && after.2 == Some(
                (packet.ip, packet.payload@),
            )
        }),
{
    if !mine {
        return Framed::Forward;
    }
    match parsed.decode(decoder, limits, now) {
        Some(packet) => Framed::Whole(packet),
        None => Framed::Wait,
    }
}

/// The worker that owns what hashes to a number.
pub fn owner(hash: u64, workers: usize) -> (r: usize)
    requires
        workers > 0,
    ensures
        r == hash as int % workers as int,
        r < workers,
{
    (hash % workers as u64) as usize
}

/// The size of the datagrams that a payload holds: what the device says, or all
/// of it.
pub open spec fn datagram_size(len: int, segment: Option<u16>) -> int {
    match segment {
        Some(size) => size as int,
        None => if len > 0 {
            len
        } else {
            1
        },
    }
}

/// Cuts a payload into its datagrams: their starts and their lengths. An empty
/// payload is one empty datagram.
pub fn datagrams(len: usize, segment: Option<u16>) -> (r: Vec<(usize, usize)>)
    requires
        segment != Some(0u16),
        len <= 65535,
    ensures
        len == 0 ==> r@ == seq![(0usize, 0usize)],
        len > 0 ==> ({
            let size = datagram_size(len as int, segment);
            &&& r@.len() == part_count(len as int, size)
            &&& forall|i: int|
                0 <= i < r@.len() ==> (#[trigger] r@[i]).0 == i * size && r@[i].0 + r@[i].1
                    == part_end(len as int, size, i)
        }),
{
    let mut r: Vec<(usize, usize)> = Vec::new();
    if len == 0 {
        r.push((0, 0));
        assert(r@ =~= seq![(0usize, 0usize)]);
        return r;
    }
    let size: usize = match segment {
        Some(size) => size as usize,
        None => len,
    };
    proof {
        lemma_part_count(len as int, size as int);
    }
    let count: usize = (len + size - 1) / size;
    let mut at: usize = 0;
    let mut i: usize = 0;
    while i < count
        invariant
            0 < size <= 65535,
            0 < len <= 65535,
            i <= count,
            count == part_count(len as int, size as int),
            (count - 1) * size < len <= count * size,
            at == i * size,
            r@.len() == i,
            forall|j: int|
                0 <= j < i ==> (#[trigger] r@[j]).0 == j * size && r@[j].0 + r@[j].1 == part_end(
                    len as int,
                    size as int,
                    j,
                ),
        decreases count - i,
    {
        proof {
            assert((i + 1) * size == i * size + size) by (nonlinear_arith);
            assert(i * size <= (count - 1) * size) by (nonlinear_arith)
                requires
                    i <= count - 1,
            ;
        }
        let n: usize = if len - at < size {
            len - at
        } else {
            size
        };
        r.push((at, n));
        at = at + size;
        i = i + 1;
    }
    r
}

/// The datagrams of a payload follow each other without gap or overlap, from its
/// first byte to its last.
pub proof fn law_datagrams_cover_the_payload(len: int, size: int, i: int)
    requires
        len > 0,
        size > 0,
        0 <= i < part_count(len, size),
    ensures
        i == 0 ==> i * size == 0,
        i + 1 < part_count(len, size) ==> part_end(len, size, i) == (i + 1) * size,
        i + 1 == part_count(len, size) ==> part_end(len, size, i) == len,
{
    lemma_part_count(len, size);
    if i + 1 < part_count(len, size) {
        assert((i + 1) * size <= (part_count(len, size) - 1) * size) by (nonlinear_arith)
            requires
                i + 1 <= part_count(len, size) - 1,
                size > 0,
        ;
    }
}

/// How many turns a worker takes before it lets others run.
pub const TURNS: usize = 64;

/// How many frames that are already readable follow the first one of a turn.
pub const READABLE: usize = 31;

/// When an association that was last used at a time has been idle for too long.
pub open spec fn spec_idle_until(last: u64, idle: u64, now: u64) -> Option<u64> {
    if last + idle <= now {
        None
    } else {
        Some((last + idle) as u64)
    }
}

/// When an association that was last used at a time has been idle for too long, or
/// `None` where it has been already.
pub fn idle_until(last: u64, idle: u64, now: u64) -> (r: Option<u64>)
    requires
        last + idle <= u64::MAX,
    ensures
        r == spec_idle_until(last, idle, now),
{
    if last + idle <= now {
        None
    } else {
        Some(last + idle)
    }
}

/// The turns after one more, and whether it is time to let others run.
pub open spec fn spec_tick(turns: usize) -> (usize, bool) {
    if turns + 1 >= TURNS {
        (0usize, true)
    } else {
        ((turns + 1) as usize, false)
    }
}

/// Counts a turn. Tells when it is time to let others run, and starts over.
pub fn tick(turns: usize) -> (r: (usize, bool))
    requires
        turns < usize::MAX,
    ensures
        r == spec_tick(turns),
{
    if turns + 1 >= TURNS {
        (0, true)
    } else {
        (turns + 1, false)
    }
}

/// What a worker has seen. The counters stop at their largest value.
#[derive(Clone, Copy, Debug, PartialEq, Eq, Structural)]
pub struct Statistics {
    pub received_packets: u64,
    pub received_bytes: u64,
    pub forwarded_packets: u64,
    pub processed_packets: u64,
    pub capacity_drops: u64,
    pub forwarding_drops: u64,
}

impl Statistics {
    pub fn new() -> (r: Statistics)
        ensures
            r == (Statistics {
                received_packets: 0,
                received_bytes: 0,
                forwarded_packets: 0,
                processed_packets: 0,
                capacity_drops: 0,
                forwarding_drops: 0,
            }),
    {
        Statistics {
            received_packets: 0,
            received_bytes: 0,
            forwarded_packets: 0,
            processed_packets: 0,
            capacity_drops: 0,
            forwarding_drops: 0,
        }
    }

    /// Counts a frame.
    pub fn received(&mut self, bytes: usize)
        ensures
            *final(self) == (Statistics {
                received_packets: counted(old(self).received_packets + 1),
                received_bytes: counted(old(self).received_bytes + bytes),
                ..*old(self)
            }),
    {
        self.received_packets = self.received_packets.saturating_add(1);
        self.received_bytes = self.received_bytes.saturating_add(bytes as u64);
    }

    /// Counts a packet for another worker, and whether its inbox admitted it.
    pub fn forwarded(&mut self, admitted: bool)
        ensures
            *final(self) == (if admitted {
                Statistics {
                    forwarded_packets: counted(old(self).forwarded_packets + 1),
                    ..*old(self)
                }
            } else {
                Statistics {
                    forwarding_drops: counted(old(self).forwarding_drops + 1),
                    ..*old(self)
                }
            }),
    {
        if admitted {
            self.forwarded_packets = self.forwarded_packets.saturating_add(1);
        } else {
            self.forwarding_drops = self.forwarding_drops.saturating_add(1);
        }
    }

    /// Counts a packet of this worker's own flows.
    pub fn processed(&mut self)
        ensures
            *final(self) == (Statistics {
                processed_packets: counted(old(self).processed_packets + 1),
                ..*old(self)
            }),
    {
        self.processed_packets = self.processed_packets.saturating_add(1);
    }

    /// Takes notice of whether an association has taken a datagram of a payload. Tells
    /// whether the next one is offered to it: after a refusal only where the worker
    /// itself exchanges the datagrams with a socket.
    pub fn offered(&mut self, taken: bool, direct: bool) -> (r: bool)
        ensures
            r == (taken || direct),
            *final(self) == (if taken {
                *old(self)
            } else {
                Statistics {
                    capacity_drops: counted(old(self).capacity_drops + 1),
                    ..*old(self)
                }
            }),
    {
        if !taken {
            self.dropped();
        }
        taken || direct
    }

    /// Counts a datagram that its association could not take.
    fn dropped(&mut self)
        ensures
            *final(self) == (Statistics {
                capacity_drops: counted(old(self).capacity_drops + 1),
                ..*old(self)
            }),
    {
        self.capacity_drops = self.capacity_drops.saturating_add(1);
    }
}

/// A turn that ends with a wait for the writer puts a flow into the queue behind
/// all others; starting its next turn takes it out again and keeps their order.
pub proof fn law_a_turn_supersedes_its_wait(v: WorkerView, id: Ready, bytes: usize)
    requires
        v.wf(),
        v.has_tcp(id),
        v.tcp[flow_key(TCP, id.flow)].deadline is None,
        !v.tcp[flow_key(TCP, id.flow)].blocked,
    ensures
        v.settled_tcp(id, Progress::Blocked(bytes), v.timers).started_tcp(id) == v,
{
    let w = v.settled_tcp(id, Progress::Blocked(bytes), v.timers);
    let k = flow_key(TCP, id.flow);
    lemma_blocked_tcp(v, id, bytes);
    assert(!v.waits(id)) by {
        if v.has_udp(id) {
            assert(v.tcp.contains_key(k));
            assert(v.udp.contains_key(flow_key(UDP, id.flow)));
        }
    }
    let n = v.blocked.len() as int;
    assert(w.blocked[n].0 == id);
    assert(queued(w.blocked, id));
    let i = choose|i: int| 0 <= i < w.blocked.len() && (#[trigger] w.blocked[i]).0 == id;
    assert(i == n) by {
        if i < n {
            assert(v.blocked[i].0 == id);
            assert(queued(v.blocked, id));
        }
    }
    assert(w.blocked.remove(n) =~= v.blocked);
    assert(w.tcp.insert(k, v.tcp[k]) =~= v.tcp);
}

/// Events of an incarnation that was given out before the current ones reach none
/// of them.
pub proof fn law_old_events_reach_no_new_flow(v: WorkerView, flow: Flow, old_generation: u64)
    requires
        v.wf(),
        v.tcp.contains_key(flow_key(TCP, flow)) ==> v.tcp[flow_key(TCP, flow)].generation
            != old_generation,
        v.udp.contains_key(flow_key(UDP, flow)) ==> v.udp[flow_key(UDP, flow)].generation
            != old_generation,
    ensures
        ({
            let id = Ready { flow, generation: old_generation };
            &&& !v.has_tcp(id)
            &&& !v.has_udp(id)
            &&& !v.waits(id)
            &&& !queued(v.blocked, id)
        }),
{
    assert(!v.waits(Ready { flow, generation: old_generation }));
}

} // verus!
