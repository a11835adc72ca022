//! TCP state belongs to the receive worker. The application's half of a stream
//! exchanges immutable blocks with it; the decisions of both halves stand here,
//! beside the socket that does the protocol's work.
use crate::exchange::passes;
use crate::queue::{
    blocks_in, flat, lemma_flat_front, lemma_flat_push, new_blocks, pop_block, push_block,
};
use crate::shared;
use crate::shared::{as_slice, contents};
use crate::tcp_storage::{least, minus};
use crate::udp::random_u32;
use crate::wire::TcpControl;
use crate::worker::Progress;
use bytes::Bytes;
use crossbeam_queue::SegQueue;
use vstd::prelude::*;

verus! {

/// What either direction of a connection may hold at first.
pub const INITIAL: usize = 131072;

/// The largest window that a shift of seven can tell the peer.
pub const MAX_WINDOW: usize = 8388480;

/// How long a handshake may take, in milliseconds.
pub const HANDSHAKE_TIMEOUT: u64 = 30_000;

/// How long a peer may be silent, in milliseconds.
pub const PEER_TIMEOUT: u64 = 120_000;

/// How many blocks or segments one turn moves in each direction.
pub const TURN: usize = 32;

/// The largest block that one write of the application becomes.
pub const MAX_BLOCK: usize = 65536;

/// The states of a TCP socket.
#[derive(Clone, Copy, Debug, PartialEq, Eq, Structural)]
pub enum State {
    Closed,
    Listen,
    SynSent,
    SynReceived,
    Established,
    FinWait1,
    FinWait2,
    CloseWait,
    Closing,
    LastAck,
    TimeWait,
}

/// What the socket shows at one point of a turn.
#[derive(Clone, Copy, Debug, PartialEq, Eq, Structural)]
pub struct Socket {
    pub state: State,
    pub can_recv: bool,
    pub may_recv: bool,
}

/// When the socket wants to be polled again.
#[derive(Clone, Copy, Debug, PartialEq, Eq, Structural)]
pub enum PollAt {
    Now,
    Time(u64),
    Ingress,
}

/// How a transfer that the worker runs itself has got on.
#[derive(Clone, Copy, Debug, PartialEq, Eq, Structural)]
pub enum Transfer {
    Pending,
    Done,
    Failed,
}

/// What came of one try to send a segment.
#[derive(Clone, Copy, Debug, PartialEq, Eq, Structural)]
pub enum Dispatched {
    /// A segment was queued.
    Sent,
    /// There was nothing to send.
    Nothing,
    /// The queue has no room for so many bytes.
    Full(usize),
    /// The queue is gone.
    Gone,
}

/// A connection's record beside its socket. Times are in milliseconds.
#[derive(Clone, Copy, Debug, PartialEq, Eq, Structural)]
pub struct Connection {
    pub epoch: u64,
    /// The application has not got its stream yet.
    pub waiting: bool,
    /// A connection request was accepted.
    pub started: bool,
    /// Both directions were closed, each by its own side.
    pub closed_normally: bool,
    /// A transfer has taken the place of the application's stream.
    pub handed_over: bool,
    /// The transfer is running.
    pub direct: bool,
}

/// What the worker does with the application's half of the stream in one turn.
#[derive(Clone, Copy, Debug, PartialEq, Eq, Structural)]
pub struct StreamTurn {
    /// Hand the stream to the application.
    pub deliver: bool,
    /// Move blocks from the application to the socket.
    pub send: bool,
}

/// What the worker tells the application's half at the end of a turn.
#[derive(Clone, Copy, Debug, PartialEq, Eq, Structural)]
pub struct Signals {
    pub eof: bool,
    pub reset: bool,
}

/// The window that a connection aims at.
pub open spec fn spec_window_target(target: usize) -> int {
    least(target as int, MAX_WINDOW as int)
}

/// The window target for what the capacity controller asks.
pub fn window_target(target: usize) -> (r: usize)
    ensures
        r == spec_window_target(target),
{
    if target < MAX_WINDOW {
        target
    } else {
        MAX_WINDOW
    }
}

/// A sequence number comes after another: the way from the latter to it, around the
/// end of the numbers where there is need, is less than half of them.
pub open spec fn spec_follows(number: u32, after: u32) -> bool {
    0 < (number - after) % 0x1_0000_0000 < 0x8000_0000
}

/// Whether a sequence number comes after another.
#[verifier::when_used_as_spec(spec_follows)]
pub fn follows(number: u32, after: u32) -> (r: bool)
    ensures
        r == spec_follows(number, after),
{
    let ahead: u32 = number.wrapping_sub(after);
    0 < ahead && ahead < 0x8000_0000
}

/// A connection request with this number may take the place of a connection that
/// has closed in both directions, where there is one. `waiting` is the number that
/// it would expect next.
pub open spec fn reuses(number: u32, waiting: Option<u32>) -> bool {
    waiting matches Some(next) && follows(number, next)
}

/// The first number of a connection, made from a random one. It comes after the last
/// one of the connection whose place it takes, where there is one.
pub fn initial_sequence(drawn: u32, after: Option<u32>) -> (r: u32)
    ensures
        after is None ==> r == drawn,
        after matches Some(last) ==> r == (last + 1 + drawn % 0x4000_0000) % 0x1_0000_0000
            && follows(r, last),
{
    match after {
        None => drawn,
        Some(last) => last.wrapping_add(1 + drawn % 0x4000_0000),
    }
}

/// Draws the first number of a connection: any number, or one of those that come next
/// after the last one of the connection whose place it takes.
pub fn draw_initial_sequence(after: Option<u32>) -> (r: u32)
    ensures
        after matches Some(last) ==> follows(r, last) && (r - last) % 0x1_0000_0000
            <= 0x4000_0000,
{
    initial_sequence(random_u32(), after)
}

impl Connection {
    /// The number of the peer that the connection would expect next, where another may
    /// take its place.
    pub open spec fn spec_waiting_for(self, state: State, next: u32) -> Option<u32> {
        if state == State::TimeWait && !self.direct {
            Some(next)
        } else {
            None
        }
    }

    /// The number of the peer that the connection would expect next, where it has
    /// closed in both directions and only waits for stray segments. A new connection
    /// may then take its place, unless a transfer still runs in it.
    pub fn waiting_for(&self, state: State, next: u32) -> (r: Option<u32>)
        ensures
            r == self.spec_waiting_for(state, next),
    {
        if state == State::TimeWait && !self.direct {
            Some(next)
        } else {
            None
        }
    }

    /// A transfer runs only in place of the stream, which it takes from the
    /// application once that has it.
    pub open spec fn wf(self) -> bool {
        &&& self.direct ==> self.handed_over
        &&& self.epoch + HANDSHAKE_TIMEOUT <= u64::MAX
    }

    /// A connection that listens since `now`.
    pub fn new(now: u64) -> (r: Connection)
        requires
            now + HANDSHAKE_TIMEOUT <= u64::MAX,
        ensures
            r.wf(),
            r == (Connection {
                epoch: now,
                waiting: true,
                started: false,
                closed_normally: false,
                handed_over: false,
                direct: false,
            }),
    {
        Connection {
            epoch: now,
            waiting: true,
            started: false,
            closed_normally: false,
            handed_over: false,
            direct: false,
        }
    }

    /// The connection after a segment that the socket has processed, and whether the
    /// socket has to be aborted.
    pub open spec fn noticed(self, before: State, after: State, control: TcpControl) -> (
        Connection,
        bool,
    ) {
        (
            Connection {
                closed_normally: self.closed_normally || after == State::TimeWait || (before
                    == State::LastAck && after == State::Closed && control != TcpControl::Rst),
                started: self.started || after == State::SynReceived,
                ..self
            },
            self.started && after == State::Listen,
        )
    }

    /// Takes notice of a segment that the socket has processed. Tells whether the
    /// socket has to be aborted: a handshake that was reset must not listen
    /// again.
    pub fn input(&mut self, before: State, after: State, control: TcpControl) -> (r: bool)
        requires
            old(self).wf(),
        ensures
            final(self).wf(),
            (*final(self), r) == old(self).noticed(before, after, control),
    {
        if after == State::TimeWait || (before == State::LastAck && after == State::Closed && control
            != TcpControl::Rst) {
            self.closed_normally = true;
        }
        if after == State::SynReceived {
            self.started = true;
        }
        self.started && after == State::Listen
    }

    /// Whether a turn starts with an abort: the application gave the stream up, or
    /// never got it in time.
    pub fn must_abort(&self, now: u64, abandoned: bool) -> (r: bool)
        requires
            self.wf(),
        ensures
            r == (abandoned || (self.waiting && now >= self.epoch + HANDSHAKE_TIMEOUT)),
    {
        abandoned || (self.waiting && now >= self.epoch + HANDSHAKE_TIMEOUT)
    }

    /// Whether an offered transfer takes the place of the stream. It does so once.
    pub fn attach(&mut self, offered: bool) -> (r: bool)
        requires
            old(self).wf(),
        ensures
            final(self).wf(),
            r == (offered && !old(self).handed_over),
            *final(self) == (if r {
                Connection { handed_over: true, direct: true, ..*old(self) }
            } else {
                *old(self)
            }),
    {
        if self.handed_over || !offered {
            return false;
        }
        self.handed_over = true;
        self.direct = true;
        true
    }

    /// Whether a running transfer fails because the connection was lost. Otherwise
    /// it is polled.
    pub fn transfer_lost(&self, state: State) -> (r: bool)
        ensures
            r == (self.direct && state == State::Closed && !self.closed_normally),
    {
        self.direct && state == State::Closed && !self.closed_normally
    }

    /// Takes notice of how a transfer has got on. Tells whether it is finished
    /// now; the socket is aborted if it failed.
    pub fn after_transfer(&mut self, transfer: Transfer) -> (r: bool)
        requires
            old(self).wf(),
        ensures
            final(self).wf(),
            r == (old(self).direct && transfer != Transfer::Pending),
            *final(self) == (Connection { direct: old(self).direct && !r, ..*old(self) }),
    {
        if self.direct && transfer != Transfer::Pending {
            self.direct = false;
            return true;
        }
        false
    }

    /// What the worker does with the application's half: it is served while the
    /// connection is open to the peer, unless a transfer has taken its place.
    pub fn stream_turn(&mut self, state: State) -> (r: StreamTurn)
        requires
            old(self).wf(),
        ensures
            final(self).wf(),
            ({
                let open = !old(self).handed_over && (state == State::Established || state
                    == State::CloseWait);
                &&& r == (StreamTurn { deliver: open && old(self).waiting, send: open })
                &&& *final(self) == (Connection {
                    waiting: old(self).waiting && !open,
                    ..*old(self)
                })
            }),
    {
        let open: bool = !self.handed_over && (state == State::Established || state
            == State::CloseWait);
        let deliver: bool = open && self.waiting;
        if open {
            self.waiting = false;
        }
        StreamTurn { deliver, send: open }
    }

    /// Whether the direction to the peer is closed: the application has finished,
    /// and all of its blocks have been moved.
    pub fn finish_send(&self, turn: StreamTurn, finished: bool, outgoing_empty: bool) -> (r: bool)
        ensures
            r == (turn.send && finished && outgoing_empty),
    {
        turn.send && finished && outgoing_empty
    }

    /// What the application is told: that nothing more will come, or that the
    /// connection was lost.
    pub fn signals(&self, socket: Socket) -> (r: Signals)
        ensures
            r.eof == (!self.handed_over && !self.waiting && !socket.may_recv && (socket.state
                != State::Closed || self.closed_normally)),
            r.reset == (!self.handed_over && socket.state == State::Closed
                && !self.closed_normally),
    {
        let lost: bool = socket.state == State::Closed && !self.closed_normally;
        Signals {
            eof: !self.handed_over && !self.waiting && !socket.may_recv && !lost,
            reset: !self.handed_over && lost,
        }
    }

    /// Whether a connection in its final wait ends with the worker.
    pub fn ends_with_worker(&mut self, state: State, stopping: bool) -> (r: bool)
        requires
            old(self).wf(),
        ensures
            final(self).wf(),
            r == (state == State::TimeWait && stopping),
            *final(self) == (Connection {
                closed_normally: old(self).closed_normally || r,
                ..*old(self)
            }),
    {
        if state == State::TimeWait && stopping {
            self.closed_normally = true;
            return true;
        }
        false
    }

    /// What one try to send a segment means for the turn: how the turn ends, if it
    /// does so here.
    pub fn after_dispatch(&self, dispatched: Dispatched, state: State) -> (r: Option<Progress>)
        ensures
            r == match dispatched {
                Dispatched::Full(bytes) => Some(Progress::Blocked(bytes)),
                Dispatched::Gone => Some(Progress::Closed),
                _ => if state == State::Closed {
                    Some(Progress::Closed)
                } else {
                    None
                },
            },
    {
        match dispatched {
            Dispatched::Full(bytes) => Some(Progress::Blocked(bytes)),
            Dispatched::Gone => Some(Progress::Closed),
            _ => if state == State::Closed {
                Some(Progress::Closed)
            } else {
                None
            },
        }
    }

    /// How a turn ends that was neither blocked nor closed. A handshake is never
    /// left alone beyond its time.
    pub fn end_turn(&self, socket: Socket, outgoing_empty: bool, poll_at: PollAt) -> (r: Progress)
        requires
            self.wf(),
        ensures
            r == self.spec_end_turn(socket, outgoing_empty, poll_at),
    {
        if !self.handed_over && (socket.can_recv || !outgoing_empty) {
            return Progress::Again;
        }
        let deadline: Option<u64> = match poll_at {
            PollAt::Now => {
                return Progress::Again;
            },
            PollAt::Time(at) => Some(at),
            PollAt::Ingress => None,
        };
        if self.waiting {
            let limit: u64 = self.epoch + HANDSHAKE_TIMEOUT;
            return match deadline {
                Some(at) if at < limit => Progress::Idle(Some(at)),
                _ => Progress::Idle(Some(limit)),
            };
        }
        Progress::Idle(deadline)
    }

    pub open spec fn spec_end_turn(
        self,
        socket: Socket,
        outgoing_empty: bool,
        poll_at: PollAt,
    ) -> Progress {
        let limit = (self.epoch + HANDSHAKE_TIMEOUT) as u64;
        if (!self.handed_over && (socket.can_recv || !outgoing_empty)) || poll_at == PollAt::Now {
            Progress::Again
        } else {
            match poll_at {
                PollAt::Time(at) => Progress::Idle(
                    Some(
                        if self.waiting && at >= limit {
                            limit
                        } else {
                            at
                        },
                    ),
                ),
                _ => Progress::Idle(
                    if self.waiting {
                        Some(limit)
                    } else {
                        None
                    },
                ),
            }
        }
    }

    /// Whether the application is told, when the worker drops the connection, that
    /// it was lost.
    pub fn lost_on_drop(&self) -> (r: bool)
        ensures
            r == !self.closed_normally,
    {
        !self.closed_normally
    }
}

/// The application is never told both that the stream has ended and that it was
/// lost, and nothing at all once a transfer has its place.
pub proof fn law_end_and_loss_exclude_each_other(c: Connection, socket: Socket)
    ensures
        ({
            let eof = !c.handed_over && !c.waiting && !socket.may_recv && (socket.state
                != State::Closed || c.closed_normally);
            let reset = !c.handed_over && socket.state == State::Closed && !c.closed_normally;
            &&& !(eof && reset)
            &&& c.handed_over ==> !eof && !reset
        }),
{
}

/// Until the application has its stream, a turn that ends idle ends with a
/// deadline no later than the handshake's.
pub proof fn law_handshakes_always_have_a_deadline(
    c: Connection,
    socket: Socket,
    outgoing_empty: bool,
    poll_at: PollAt,
)
    requires
        c.wf(),
        c.waiting,
    ensures
        c.spec_end_turn(socket, outgoing_empty, poll_at) matches Progress::Idle(deadline) ==> (
        deadline matches Some(at) && at <= c.epoch + HANDSHAKE_TIMEOUT),
{
}

/// Whether an event for a flow is on its way to the worker. There is never more
/// than one.
#[derive(Clone, Copy, Debug, PartialEq, Eq, Structural)]
pub struct Wakeup {
    pub queued: bool,
}

impl Wakeup {
    pub fn new() -> (r: Wakeup)
        ensures
            !r.queued,
    {
        Wakeup { queued: false }
    }

    /// Asks for a turn. Tells whether an event has to be sent.
    pub fn wake(&mut self) -> (r: bool)
        ensures
            r == !old(self).queued,
            final(self).queued,
    {
        let first: bool = !self.queued;
        self.queued = true;
        first
    }

    /// The turn starts, so that whatever happens from now on asks for another.
    pub fn begin_turn(&mut self)
        ensures
            !final(self).queued,
    {
        self.queued = false;
    }
}

/// The application's half of a stream, and the blocks on their way to it. `used`
/// counts bytes that the application has not consumed, `consumed` those that it
/// has since the worker last asked.
pub struct Reader {
    head: Bytes,
    incoming: SegQueue<Bytes>,
    used: usize,
    consumed: usize,
    ended: bool,
}

/// What a read finds.
pub enum Read {
    /// The connection was lost.
    Reset,
    /// Nothing is there yet.
    Pending,
    /// Nothing more will come.
    End,
    /// Bytes, in the order of the stream.
    Bytes(Vec<u8>),
}

/// What a read of whole blocks finds.
pub enum ReadChunk {
    Reset,
    Pending,
    End,
    Chunk(Bytes),
}

impl Reader {
    /// The bytes that are there, in order.
    pub closed spec fn view(&self) -> Seq<u8> {
        contents(self.head) + flat(blocks_in(self.incoming))
    }

    /// What is left of a block that a read took in part.
    pub closed spec fn spec_head(&self) -> Seq<u8> {
        contents(self.head)
    }

    /// The bytes that the application has not consumed.
    pub closed spec fn spec_used(&self) -> int {
        self.used as int
    }

    pub closed spec fn spec_consumed(&self) -> int {
        self.consumed as int
    }

    /// The application has seen the end of the stream.
    pub closed spec fn spec_ended(&self) -> bool {
        self.ended
    }

    /// What is there has not been consumed.
    pub closed spec fn wf(&self) -> bool {
        self@.len() <= self.used
    }

    pub fn new() -> (r: Reader)
        ensures
            r.wf(),
            r@ == Seq::<u8>::empty(),
            r.spec_used() == 0,
            r.spec_consumed() == 0,
            !r.spec_ended(),
            r.spec_head().len() == 0,
    {
        let r = Reader {
            head: shared::from_vec(Vec::new()),
            incoming: new_blocks(),
            used: 0,
            consumed: 0,
            ended: false,
        };
        assert(r@ =~= Seq::<u8>::empty());
        r
    }

    /// The worker adds a block.
    pub fn publish(&mut self, bytes: Bytes)
        requires
            old(self).wf(),
            old(self).spec_used() + contents(bytes).len() <= usize::MAX,
        ensures
            final(self).wf(),
            final(self)@ == old(self)@ + contents(bytes),
            final(self).spec_used() == old(self).spec_used() + contents(bytes).len(),
            final(self).spec_consumed() == old(self).spec_consumed(),
            final(self).spec_ended() == old(self).spec_ended(),
            final(self).spec_head() == old(self).spec_head(),
    {
        proof {
            lemma_flat_push(blocks_in(self.incoming), contents(bytes));
        }
        self.used = self.used + bytes.len();
        push_block(&mut self.incoming, bytes);
        assert(self@ =~= old(self)@ + contents(bytes));
    }

    /// Makes the next block the head, if the head is used up.
    fn refill(&mut self)
        requires
            old(self).wf(),
        ensures
            final(self).wf(),
            final(self)@ == old(self)@,
            final(self).spec_used() == old(self).spec_used(),
            final(self).spec_consumed() == old(self).spec_consumed(),
            final(self).spec_ended() == old(self).spec_ended(),
            contents(final(self).head).len() == 0 ==> final(self)@.len() == 0,
    {
        while self.head.len() == 0
            invariant_except_break
                self.wf(),
                self@ == old(self)@,
                self.spec_used() == old(self).spec_used(),
                self.spec_consumed() == old(self).spec_consumed(),
                self.spec_ended() == old(self).spec_ended(),
            ensures
                self.wf(),
                self@ == old(self)@,
                self.spec_used() == old(self).spec_used(),
                self.spec_consumed() == old(self).spec_consumed(),
                self.spec_ended() == old(self).spec_ended(),
                contents(self.head).len() == 0 ==> self@.len() == 0,
            decreases blocks_in(self.incoming).len(),
        {
            let ghost before = *self;
            match pop_block(&mut self.incoming) {
                Some(bytes) => {
                    self.head = bytes;
                    proof {
                        lemma_flat_front(blocks_in(before.incoming));
                        assert(self@ =~= before@);
                    }
                },
                None => {
                    break;
                },
            }
        }
    }

    /// Copies what is there, at most `room` bytes, and counts it as consumed. A
    /// read into no room finds nothing. The end of the stream comes after its last
    /// byte; a lost connection is told before anything else.
    pub fn read(&mut self, room: usize, eof: bool, reset: bool) -> (r: Read)
        requires
            old(self).wf(),
            old(self).spec_consumed() + old(self)@.len() <= usize::MAX,
        ensures
            final(self).wf(),
            room > 0 && reset <==> r is Reset,
            room > 0 && !reset && old(self)@.len() == 0 && eof <==> r is End,
            room > 0 && !reset && old(self)@.len() == 0 && !eof <==> r is Pending,
            final(self).spec_ended() == (old(self).spec_ended() || r is End),
            match r {
                Read::Bytes(bytes) => {
                    let n = least(room as int, old(self)@.len() as int);
                    &&& bytes@ == old(self)@.take(n)
                    &&& final(self)@ == old(self)@.skip(n)
                    &&& passes(old(self)@, Seq::empty(), bytes@, final(self)@)
                    &&& final(self).spec_head().is_prefix_of(final(self)@)
                    &&& n < room ==> final(self).spec_head().len() == 0
                    &&& final(self).spec_used() == old(self).spec_used() - n
                    &&& final(self).spec_consumed() == old(self).spec_consumed() + n
                },
                _ => {
                    &&& final(self)@ == old(self)@
                    &&& final(self).spec_used() == old(self).spec_used()
                    &&& final(self).spec_consumed() == old(self).spec_consumed()
                },
            },
    {
        let mut out: Vec<u8> = Vec::new();
        if room == 0 {
            assert(out@ =~= self@.take(0));
            assert(self@.skip(0) =~= self@);
            assert(self@ + Seq::<u8>::empty() =~= out@ + self@);
            assert(self.spec_head().is_prefix_of(self@));
            return Read::Bytes(out);
        }
        if reset {
            return Read::Reset;
        }
        let ghost all = self@;
        assert(all.take(0) =~= out@);
        assert(all.skip(0) =~= all);
        loop
            invariant_except_break
                self.wf(),
                out@.len() <= room,
                out@.len() <= all.len(),
                out@ == all.take(out@.len() as int),
                self@ == all.skip(out@.len() as int),
                self.spec_used() == old(self).spec_used() - out@.len(),
                self.spec_consumed() == old(self).spec_consumed() + out@.len(),
                self.spec_ended() == old(self).spec_ended(),
                old(self).spec_consumed() + all.len() <= usize::MAX,
            ensures
                self.wf(),
                out@.len() == least(room as int, all.len() as int),
                out@ == all.take(out@.len() as int),
                self@ == all.skip(out@.len() as int),
                self.spec_used() == old(self).spec_used() - out@.len(),
                self.spec_consumed() == old(self).spec_consumed() + out@.len(),
                self.spec_ended() == old(self).spec_ended(),
            decreases self@.len(),
        {
            if out.len() == room {
                break;
            }
            self.refill();
            if self.head.len() == 0 {
                break;
            }
            let ghost before = *self;
            let ghost had = out@;
            let free: usize = room - out.len();
            let n: usize = if free < self.head.len() {
                free
            } else {
                self.head.len()
            };
            let part = self.head.split_to(n);
            out.extend_from_slice(as_slice(&part));
            proof {
                assert(before@.take(n as int) =~= contents(part));
                assert(self@ =~= before@.skip(n as int));
                assert(out@ =~= all.take(out@.len() as int));
                assert(self@ =~= all.skip(out@.len() as int));
            }
            self.used = self.used - n;
            self.consumed = self.consumed + n;
        }
        if out.len() != 0 {
            assert(all + Seq::<u8>::empty() =~= out@ + self@);
            assert(self.spec_head().is_prefix_of(self@));
            return Read::Bytes(out);
        }
        assert(all.skip(0) =~= all);
        if eof {
            self.ended = true;
            return Read::End;
        }
        Read::Pending
    }

    /// Takes the next block whole. It is counted as consumed only later.
    pub fn read_chunk(&mut self, eof: bool, reset: bool) -> (r: ReadChunk)
        requires
            old(self).wf(),
        ensures
            final(self).wf(),
            reset <==> r is Reset,
            !reset && old(self)@.len() == 0 && eof <==> r is End,
            !reset && old(self)@.len() == 0 && !eof <==> r is Pending,
            final(self).spec_ended() == (old(self).spec_ended() || r is End),
            final(self).spec_used() == old(self).spec_used(),
            final(self).spec_consumed() == old(self).spec_consumed(),
            match r {
                ReadChunk::Chunk(bytes) => {
                    &&& contents(bytes).len() > 0
                    &&& passes(old(self)@, Seq::empty(), contents(bytes), final(self)@)
                    &&& final(self).spec_head().len() == 0
                },
                _ => final(self)@ == old(self)@,
            },
    {
        if reset {
            return ReadChunk::Reset;
        }
        self.refill();
        if self.head.len() != 0 {
            let ghost before = *self;
            let len: usize = self.head.len();
            let bytes = self.head.split_to(len);
            assert(before@ + Seq::<u8>::empty() =~= contents(bytes) + self@);
            return ReadChunk::Chunk(bytes);
        }
        if eof {
            self.ended = true;
            return ReadChunk::End;
        }
        ReadChunk::Pending
    }

    /// Whether no block was read in part.
    pub fn head_empty(&self) -> (r: bool)
        ensures
            r == (self.spec_head().len() == 0),
    {
        self.head.len() == 0
    }

    /// Counts bytes of a block as consumed.
    pub fn consume_chunk(&mut self, n: usize)
        requires
            old(self).wf(),
            old(self)@.len() + n <= old(self).spec_used(),
            old(self).spec_consumed() + n <= usize::MAX,
        ensures
            final(self).wf(),
            final(self)@ == old(self)@,
            final(self).spec_used() == old(self).spec_used() - n,
            final(self).spec_consumed() == old(self).spec_consumed() + n,
            final(self).spec_ended() == old(self).spec_ended(),
    {
        let ghost before = *self;
        self.used = self.used - n;
        self.consumed = self.consumed + n;
        assert(self@ == before@);
    }

    /// Takes the count of consumed bytes, for the worker.
    pub fn take_consumed(&mut self) -> (r: usize)
        requires
            old(self).wf(),
        ensures
            final(self).wf(),
            r == old(self).spec_consumed(),
            final(self).spec_consumed() == 0,
            final(self)@ == old(self)@,
            final(self).spec_used() == old(self).spec_used(),
            final(self).spec_ended() == old(self).spec_ended(),
    {
        let ghost before = *self;
        let consumed: usize = self.consumed;
        self.consumed = 0;
        assert(self@ == before@);
        consumed
    }
}

/// What a write may do.
#[derive(Clone, Copy, Debug, PartialEq, Eq, Structural)]
pub enum Write {
    /// The connection was lost.
    Reset,
    /// The application has finished its direction before.
    BrokenPipe,
    /// There is no room yet.
    Pending,
    /// So many bytes are taken.
    Accept(usize),
}

/// How many bytes of a write are taken: what the allowance leaves, at most `most`.
pub open spec fn write_room(len: int, target: usize, used: usize, most: int) -> int {
    least(least(len, minus(target as int, used as int)), most)
}

/// What becomes of a write of `len` bytes that are copied.
pub open spec fn spec_write_bytes(
    len: usize,
    finished: bool,
    reset: bool,
    target: usize,
    used: usize,
) -> Write {
    if reset {
        Write::Reset
    } else if finished {
        Write::BrokenPipe
    } else if len == 0 {
        Write::Accept(0)
    } else if write_room(len as int, target, used, MAX_BLOCK as int) == 0 {
        Write::Pending
    } else {
        Write::Accept(write_room(len as int, target, used, MAX_BLOCK as int) as usize)
    }
}

/// Decides a write of `len` bytes that are copied. Writing nothing always
/// succeeds.
pub fn write_bytes(len: usize, finished: bool, reset: bool, target: usize, used: usize) -> (r: Write)
    ensures
        r == spec_write_bytes(len, finished, reset, target, used),
{
    if reset {
        return Write::Reset;
    }
    if finished {
        return Write::BrokenPipe;
    }
    if len == 0 {
        return Write::Accept(0);
    }
    let mut n: usize = target.saturating_sub(used);
    if len < n {
        n = len;
    }
    if n > MAX_BLOCK {
        n = MAX_BLOCK;
    }
    if n == 0 {
        Write::Pending
    } else {
        Write::Accept(n)
    }
}

/// What becomes of a write of a block of `len` bytes that is moved.
pub open spec fn spec_write_chunk(
    len: usize,
    finished: bool,
    reset: bool,
    target: usize,
    used: usize,
) -> Write {
    if reset {
        Write::Reset
    } else if finished {
        Write::BrokenPipe
    } else if write_room(len as int, target, used, len as int) == 0 {
        Write::Pending
    } else {
        Write::Accept(write_room(len as int, target, used, len as int) as usize)
    }
}

/// Decides a write of a block of `len` bytes that is moved, in parts if need be.
pub fn write_chunk(len: usize, finished: bool, reset: bool, target: usize, used: usize) -> (r: Write)
    ensures
        r == spec_write_chunk(len, finished, reset, target, used),
{
    if reset {
        return Write::Reset;
    }
    if finished {
        return Write::BrokenPipe;
    }
    let free: usize = target.saturating_sub(used);
    let n: usize = if len < free {
        len
    } else {
        free
    };
    if n == 0 {
        Write::Pending
    } else {
        Write::Accept(n)
    }
}

/// A write never goes beyond the allowance, and never stalls while it has room.
pub proof fn law_writes_stay_within_the_allowance(len: int, target: usize, used: usize, most: int)
    requires
        len > 0,
        most > 0,
    ensures
        used <= target ==> used + write_room(len, target, used, most) <= target,
        write_room(len, target, used, most) == 0 <==> used >= target,
{
}

/// A stream that the application drops is lost for the peer.
pub open spec fn spec_abandons(read_ended: bool, write_finished: bool) -> bool {
    !(read_ended && write_finished)
}

/// Whether a stream that the application drops is lost for the peer: it is, unless
/// both directions were finished.
pub fn abandons(read_ended: bool, write_finished: bool) -> (r: bool)
    ensures
        r == spec_abandons(read_ended, write_finished),
{
    !(read_ended && write_finished)
}

/// A transfer may take the place of a stream.
pub open spec fn spec_may_hand_over(
    head_empty: bool,
    read_ended: bool,
    write_finished: bool,
) -> bool {
    head_empty && !read_ended && !write_finished
}

/// Whether a transfer may take the place of a stream: nothing of the stream is
/// half read, and neither direction has ended.
pub fn may_hand_over(head_empty: bool, read_ended: bool, write_finished: bool) -> (r: bool)
    ensures
        r == spec_may_hand_over(head_empty, read_ended, write_finished),
{
    head_empty && !read_ended && !write_finished
}

/// A connection counts as closed normally once its socket waits for stray segments, or
/// its last acknowledgment has come; a reset in place of that acknowledgment is a loss.
/// Nothing takes either notice back.
pub proof fn law_normal_ends_are_noticed(
    c: Connection,
    before: State,
    after: State,
    control: TcpControl,
)
    ensures
        ({
            let next = c.noticed(before, after, control).0;
            &&& after is TimeWait ==> next.closed_normally
            &&& before is LastAck && after is Closed ==> (next.closed_normally <==> !(control is Rst)
                || c.closed_normally)
            &&& c.closed_normally ==> next.closed_normally
            &&& !(after is TimeWait) && !(before is LastAck && after is Closed)
                ==> next.closed_normally == c.closed_normally
            &&& next.waiting == c.waiting && next.handed_over == c.handed_over && next.direct
                == c.direct && next.epoch == c.epoch
        }),
{
}

/// A socket whose handshake had begun and was then reset is aborted, so that it does not
/// listen again; one that still waits for its first request is not.
pub proof fn law_failed_handshakes_do_not_listen_again(
    c: Connection,
    before: State,
    after: State,
    control: TcpControl,
)
    ensures
        ({
            let (next, aborts) = c.noticed(before, after, control);
            &&& next.started <==> c.started || after is SynReceived
            &&& aborts <==> after is Listen && c.started
            &&& !aborts && after is Listen ==> !next.started
        }),
{
}

/// Only a connection that waits for stray segments, and in which no transfer runs, may be
/// replaced; and then it is the number that it would expect next that counts.
pub proof fn law_only_finished_connections_are_replaced(c: Connection, state: State, next: u32)
    ensures
        c.spec_waiting_for(state, next) is Some <==> state is TimeWait && !c.direct,
        c.spec_waiting_for(state, next) matches Some(n) ==> n == next,
{
}

/// A lost connection takes nothing, a finished direction takes nothing more, and
/// otherwise a write is taken as far as the allowance goes: never beyond it, never more
/// than was offered or than one block of sixty-four kibibytes, and never nothing while
/// there is room. Writing nothing succeeds.
pub proof fn law_writes_are_taken_as_far_as_allowed(
    len: usize,
    finished: bool,
    reset: bool,
    target: usize,
    used: usize,
)
    ensures
        ({
            let r = spec_write_bytes(len, finished, reset, target, used);
            &&& r is Reset <==> reset
            &&& r is BrokenPipe <==> !reset && finished
            &&& r is Pending <==> !reset && !finished && len > 0 && used >= target
            &&& r matches Write::Accept(n) ==> {
                &&& n <= len && n <= 65536
                &&& n > 0 ==> used + n <= target
                &&& n == len || n == 65536 || used + n == target
                &&& len > 0 ==> n > 0
            }
        }),
        ({
            let r = spec_write_chunk(len, finished, reset, target, used);
            &&& r is Reset <==> reset
            &&& r is BrokenPipe <==> !reset && finished
            &&& r is Pending <==> !reset && !finished && (len == 0 || used >= target)
            &&& r matches Write::Accept(n) ==> {
                &&& 0 < n <= len
                &&& used + n <= target
                &&& n == len || used + n == target
            }
        }),
{
}

/// Dropping a stream is no loss only where both of its directions had ended. A transfer
/// takes the place of a stream only while both are open, and misses nothing of it.
pub proof fn law_streams_are_given_up_whole(
    head_empty: bool,
    read_ended: bool,
    write_finished: bool,
)
    ensures
        !spec_abandons(read_ended, write_finished) <==> read_ended && write_finished,
        spec_may_hand_over(head_empty, read_ended, write_finished) <==> head_empty && !(read_ended
            || write_finished),
        spec_may_hand_over(head_empty, read_ended, write_finished) ==> spec_abandons(
            read_ended,
            write_finished,
        ),
{
}

/// The window that a connection aims at is what the capacity controller asks for, as far as
/// sixteen bits and a shift of seven can tell it.
pub proof fn law_windows_can_be_told(target: usize)
    ensures
        spec_window_target(target) <= 65535 * 128,
        target <= 65535 * 128 ==> spec_window_target(target) == target,
        spec_window_target(target) <= target,
        target >= 65535 * 128 ==> spec_window_target(target) == 65535 * 128,
{
}

/// One number comes after another exactly when it is reached from it by less than half a
/// round; so of two different numbers that are not half a round apart, one comes after the
/// other, and never both.
pub proof fn law_numbers_follow_one_another(number: u32, after: u32)
    ensures
        !(spec_follows(number, after) && spec_follows(after, number)),
        number != after && (number - after) % 0x1_0000_0000 != 0x8000_0000 ==> spec_follows(
            number,
            after,
        ) || spec_follows(after, number),
        !spec_follows(number, number),
        after < u32::MAX ==> spec_follows((after + 1) as u32, after),
        spec_follows(0, u32::MAX),
{
}

} // verus!
