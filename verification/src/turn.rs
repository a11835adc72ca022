//! One turn of a connection: what the worker does with the socket, the stream and
//! the queue to the device, step by step.
use crate::tcp::{
    Connection, Dispatched, PollAt, Signals, Socket, State, StreamTurn, Transfer, TURN,
};
use crate::worker::Progress;
use vstd::prelude::*;

verus! {

/// Where a turn stands.
#[derive(Clone, Copy, Debug, PartialEq, Eq, Structural)]
pub enum Phase {
    /// Give a lost stream or a late handshake up.
    Abandon,
    /// Take an offered transfer.
    Attach,
    /// Run the transfer.
    Transfer,
    /// See how the transfer got on.
    Transferred,
    /// Hand the stream to the application.
    Deliver,
    /// Move blocks to the socket.
    Send,
    /// Close the direction to the peer.
    Finish,
    /// Move blocks to the application.
    Receive,
    /// Tell the application of the end or the loss of the stream.
    Signal,
    /// End with the worker.
    TimeWait,
    /// Send segments.
    Dispatch,
    /// See what came of a segment.
    Sent,
    /// Decide when the connection runs next.
    End,
}

/// What is seen before a step. A step looks at what its phase needs.
#[derive(Clone, Copy, Debug, PartialEq, Eq, Structural)]
pub struct Seen {
    pub now: u64,
    pub stopping: bool,
    /// The application gave the stream up.
    pub abandoned: bool,
    /// A transfer was offered.
    pub offered: bool,
    pub socket: Socket,
    /// The application has finished its direction.
    pub finished: bool,
    /// No block of the application waits.
    pub outgoing_empty: bool,
    /// What the last action of this kind gave.
    pub failed: bool,
    pub transfer: Transfer,
    pub dispatched: Dispatched,
    pub poll_at: PollAt,
}

/// What the worker does next.
#[derive(Clone, Copy, Debug, PartialEq, Eq, Structural)]
pub enum Action {
    /// Nothing here; go on with the next step.
    Proceed,
    /// Abort the socket.
    Abort,
    /// Take the offered transfer and start it.
    StartTransfer,
    /// Poll the transfer.
    PollTransfer,
    /// Fail the transfer with the loss of the connection.
    FailTransfer,
    /// Hand the transfer's result back, and abort the socket if it failed.
    FinishTransfer { abort: bool },
    /// Hand the stream to the application.
    Deliver,
    /// Move blocks of the application to the socket, up to `TURN`.
    MoveOutgoing,
    /// Close the socket's direction to the peer.
    CloseSend,
    /// Move blocks from the socket to the application, up to `TURN`.
    MoveIncoming,
    /// Tell the application.
    Signal(Signals),
    /// Try to queue one segment.
    Dispatch,
    /// The turn is over.
    End(Progress),
}

/// A turn: its phase, how many segments were tried, and what it does with the
/// stream.
#[derive(Clone, Copy, Debug, PartialEq, Eq, Structural)]
pub struct Turn {
    pub phase: Phase,
    pub tries: usize,
    pub stream: StreamTurn,
}

/// The connection is open in the direction to the peer for the application.
pub open spec fn is_open(c: Connection, state: State) -> bool {
    !c.handed_over && (state == State::Established || state == State::CloseWait)
}

/// The connection was lost.
pub open spec fn lost(c: Connection, state: State) -> bool {
    state == State::Closed && !c.closed_normally
}

impl Turn {
    pub open spec fn at(self, phase: Phase) -> Turn {
        Turn { phase, ..self }
    }

    /// One step: the turn and the connection after it, and what is done.
    pub open spec fn after(self, c: Connection, seen: Seen) -> (Turn, Connection, Action) {
        match self.phase {
            Phase::Abandon => (
                self.at(Phase::Attach),
                c,
                if seen.abandoned || (c.waiting && seen.now >= c.epoch
                    + crate::tcp::HANDSHAKE_TIMEOUT) {
                    Action::Abort
                } else {
                    Action::Proceed
                },
            ),
            Phase::Attach => if seen.offered && !c.handed_over {
                (
                    self.at(Phase::Transfer),
                    Connection { handed_over: true, direct: true, ..c },
                    Action::StartTransfer,
                )
            } else {
                (self.at(Phase::Transfer), c, Action::Proceed)
            },
            Phase::Transfer => if !c.direct {
                (self.at(Phase::Deliver), c, Action::Proceed)
            } else if lost(c, seen.socket.state) {
                (self.at(Phase::Transferred), c, Action::FailTransfer)
            } else {
                (self.at(Phase::Transferred), c, Action::PollTransfer)
            },
            Phase::Transferred => if c.direct && seen.transfer != Transfer::Pending {
                (
                    self.at(Phase::Deliver),
                    Connection { direct: false, ..c },
                    Action::FinishTransfer { abort: seen.transfer == Transfer::Failed },
                )
            } else {
                (self.at(Phase::Deliver), c, Action::Proceed)
            },
            Phase::Deliver => {
                let open = is_open(c, seen.socket.state);
                (
                    Turn {
                        phase: if open {
                            Phase::Send
                        } else {
                            Phase::Receive
                        },
                        stream: StreamTurn { deliver: open && c.waiting, send: open },
                        ..self
                    },
                    Connection { waiting: c.waiting && !open, ..c },
                    if open && c.waiting {
                        Action::Deliver
                    } else {
                        Action::Proceed
                    },
                )
            },
            Phase::Send => if self.stream.deliver && seen.failed {
                // Nobody waits for the stream any more.
                (
                    Turn {
                        stream: StreamTurn { deliver: false, ..self.stream },
                        ..self
                    },
                    c,
                    Action::Abort,
                )
            } else {
                (self.at(Phase::Finish), c, Action::MoveOutgoing)
            },
            Phase::Finish => (
                self.at(Phase::Receive),
                c,
                if self.stream.send && seen.finished && seen.outgoing_empty {
                    Action::CloseSend
                } else {
                    Action::Proceed
                },
            ),
            Phase::Receive => (
                self.at(Phase::Signal),
                c,
                if !c.handed_over && seen.socket.can_recv {
                    Action::MoveIncoming
                } else {
                    Action::Proceed
                },
            ),
            Phase::Signal => {
                let gone = lost(c, seen.socket.state);
                (
                    self.at(Phase::TimeWait),
                    c,
                    if c.handed_over {
                        Action::Proceed
                    } else {
                        Action::Signal(
                            Signals {
                                eof: !c.waiting && !seen.socket.may_recv && !gone,
                                reset: gone,
                            },
                        )
                    },
                )
            },
            Phase::TimeWait => if seen.socket.state == State::TimeWait && seen.stopping {
                (
                    self.at(Phase::Dispatch),
                    Connection { closed_normally: true, ..c },
                    Action::End(Progress::Closed),
                )
            } else {
                (self.at(Phase::Dispatch), c, Action::Proceed)
            },
            Phase::Dispatch => if self.tries < TURN {
                (
                    Turn { phase: Phase::Sent, tries: (self.tries + 1) as usize, ..self },
                    c,
                    Action::Dispatch,
                )
            } else {
                (self.at(Phase::End), c, Action::Proceed)
            },
            Phase::Sent => match seen.dispatched {
                Dispatched::Full(bytes) => (self.at(Phase::End), c, Action::End(
                    Progress::Blocked(bytes),
                )),
                Dispatched::Gone => (self.at(Phase::End), c, Action::End(Progress::Closed)),
                _ => if seen.socket.state == State::Closed {
                    (self.at(Phase::End), c, Action::End(Progress::Closed))
                } else if seen.dispatched == Dispatched::Sent {
                    (self.at(Phase::Dispatch), c, Action::Proceed)
                } else {
                    (self.at(Phase::End), c, Action::Proceed)
                },
            },
            Phase::End => (
                self,
                c,
                Action::End(c.spec_end_turn(seen.socket, seen.outgoing_empty, seen.poll_at)),
            ),
        }
    }

    pub fn new() -> (r: Turn)
        ensures
            r == (Turn {
                phase: Phase::Abandon,
                tries: 0,
                stream: StreamTurn { deliver: false, send: false },
            }),
    {
        Turn {
            phase: Phase::Abandon,
            tries: 0,
            stream: StreamTurn { deliver: false, send: false },
        }
    }

    /// How far a turn is from its end.
    pub open spec fn distance(self) -> int {
        match self.phase {
            Phase::Abandon => 90,
            Phase::Attach => 89,
            Phase::Transfer => 88,
            Phase::Transferred => 87,
            Phase::Deliver => 86,
            Phase::Send => if self.stream.deliver {
                85
            } else {
                84
            },
            Phase::Finish => 83,
            Phase::Receive => 82,
            Phase::Signal => 81,
            Phase::TimeWait => 80,
            Phase::Dispatch => 1 + 2 * (TURN - self.tries),
            Phase::Sent => 2 + 2 * (TURN - self.tries),
            Phase::End => 0,
        }
    }
}

impl Connection {
    /// Takes one step of a turn: what is done next, after what was seen.
    pub fn poll(&mut self, turn: &mut Turn, seen: &Seen) -> (r: Action)
        requires
            old(self).wf(),
        ensures
            final(self).wf(),
            (*final(turn), *final(self), r) == old(turn).after(*old(self), *seen),
    {
        match turn.phase {
            Phase::Abandon => {
                turn.phase = Phase::Attach;
                if self.must_abort(seen.now, seen.abandoned) {
                    Action::Abort
                } else {
                    Action::Proceed
                }
            },
            Phase::Attach => {
                turn.phase = Phase::Transfer;
                if self.attach(seen.offered) {
                    Action::StartTransfer
                } else {
                    Action::Proceed
                }
            },
            Phase::Transfer => {
                if !self.direct {
                    turn.phase = Phase::Deliver;
                    Action::Proceed
                } else {
                    turn.phase = Phase::Transferred;
                    if self.transfer_lost(seen.socket.state) {
                        Action::FailTransfer
                    } else {
                        Action::PollTransfer
                    }
                }
            },
            Phase::Transferred => {
                turn.phase = Phase::Deliver;
                if self.after_transfer(seen.transfer) {
                    Action::FinishTransfer { abort: seen.transfer == Transfer::Failed }
                } else {
                    Action::Proceed
                }
            },
            Phase::Deliver => {
                turn.stream = self.stream_turn(seen.socket.state);
                turn.phase = if turn.stream.send {
                    Phase::Send
                } else {
                    Phase::Receive
                };
                if turn.stream.deliver {
                    Action::Deliver
                } else {
                    Action::Proceed
                }
            },
            Phase::Send => {
                if turn.stream.deliver && seen.failed {
                    turn.stream.deliver = false;
                    Action::Abort
                } else {
                    turn.phase = Phase::Finish;
                    Action::MoveOutgoing
                }
            },
            Phase::Finish => {
                turn.phase = Phase::Receive;
                if self.finish_send(turn.stream, seen.finished, seen.outgoing_empty) {
                    Action::CloseSend
                } else {
                    Action::Proceed
                }
            },
            Phase::Receive => {
                turn.phase = Phase::Signal;
                if !self.handed_over && seen.socket.can_recv {
                    Action::MoveIncoming
                } else {
                    Action::Proceed
                }
            },
            Phase::Signal => {
                turn.phase = Phase::TimeWait;
                if self.handed_over {
                    Action::Proceed
                } else {
                    Action::Signal(self.signals(seen.socket))
                }
            },
            Phase::TimeWait => {
                turn.phase = Phase::Dispatch;
                if self.ends_with_worker(seen.socket.state, seen.stopping) {
                    Action::End(Progress::Closed)
                } else {
                    Action::Proceed
                }
            },
            Phase::Dispatch => {
                if turn.tries < TURN {
                    turn.tries = turn.tries + 1;
                    turn.phase = Phase::Sent;
                    Action::Dispatch
                } else {
                    turn.phase = Phase::End;
                    Action::Proceed
                }
            },
            Phase::Sent => {
                match self.after_dispatch(seen.dispatched, seen.socket.state) {
                    Some(progress) => {
                        turn.phase = Phase::End;
                        Action::End(progress)
                    },
                    None => {
                        turn.phase = if seen.dispatched == Dispatched::Sent {
                            Phase::Dispatch
                        } else {
                            Phase::End
                        };
                        Action::Proceed
                    },
                }
            },
            Phase::End => Action::End(self.end_turn(seen.socket, seen.outgoing_empty, seen.poll_at)),
        }
    }
}

/// Every turn ends: each step either is the last or comes closer to the end, so a
/// turn that starts afresh takes at most ninety-one steps, and tries at most
/// `TURN` segments.
pub proof fn law_turns_end(turn: Turn, c: Connection, seen: Seen)
    requires
        turn.tries <= TURN,
    ensures
        turn.after(c, seen).0.tries <= TURN,
        turn.distance() >= 0,
        turn.after(c, seen).2 is End || turn.after(c, seen).0.distance() < turn.distance(),
        turn.phase == Phase::End ==> turn.after(c, seen).2 is End,
{
}

/// Once a transfer has taken the stream's place, no turn touches the
/// application's blocks or signals.
pub proof fn law_transfers_own_the_stream(turn: Turn, c: Connection, seen: Seen)
    requires
        c.handed_over,
        turn.phase != Phase::Send,
        turn.phase != Phase::Finish,
    ensures
        ({
            let (next, after, action) = turn.after(c, seen);
            &&& after.handed_over
            &&& next.phase != Phase::Send
            &&& next.phase != Phase::Finish
            &&& !(action is Deliver)
            &&& !(action is MoveOutgoing)
            &&& !(action is CloseSend)
            &&& !(action is MoveIncoming)
            &&& !(action is Signal)
        }),
{
}

/// A turn is blocked only by a full queue, and for as many bytes as the queue
/// lacked.
pub proof fn law_only_a_full_queue_blocks(turn: Turn, c: Connection, seen: Seen, bytes: usize)
    requires
        turn.after(c, seen).2 == Action::End(Progress::Blocked(bytes)),
    ensures
        turn.phase == Phase::Sent,
        seen.dispatched == Dispatched::Full(bytes),
{
}

/// The direction to the peer is closed only when the application has finished and
/// none of its blocks waits any more, so that the peer's stream ends behind the last
/// byte that was written; and then it is closed at once.
pub proof fn law_the_end_follows_the_last_block(turn: Turn, c: Connection, seen: Seen)
    ensures
        turn.after(c, seen).2 is CloseSend ==> seen.finished && seen.outgoing_empty
            && turn.stream.send,
        turn.phase is Finish && turn.stream.send && seen.finished && seen.outgoing_empty
            ==> turn.after(c, seen).2 is CloseSend,
        turn.phase is Finish && !seen.outgoing_empty ==> turn.after(c, seen).2 is Proceed,
{
}

/// Blocks of the application go to the socket only while the socket can send, in
/// every turn that finds it so: a turn reaches its sending steps exactly when the
/// stream is the application's and the socket is established or half closed by the
/// peer.
pub proof fn law_blocks_go_to_an_open_socket(turn: Turn, c: Connection, seen: Seen)
    ensures
        turn.phase is Deliver ==> {
            let next = turn.after(c, seen).0;
            let sends = !c.handed_over && (seen.socket.state is Established
                || seen.socket.state is CloseWait);
            &&& next.stream.send == sends
            &&& next.phase is Send == sends
            &&& next.phase is Receive == !sends
        },
        turn.after(c, seen).0.phase is Send ==> turn.phase is Deliver || turn.phase is Send,
        turn.after(c, seen).0.phase is Finish ==> turn.phase is Send && turn.after(
            c,
            seen,
        ).2 is MoveOutgoing,
        turn.after(c, seen).2 is MoveOutgoing ==> turn.phase is Send && turn.after(
            c,
            seen,
        ).0.phase is Finish,
        !(turn.phase is Deliver) ==> turn.after(c, seen).0.stream.send == turn.stream.send,
{
}

/// A turn takes its steps in order and leaves none out, but for those that have
/// nothing to do: the transfer's where none runs, and the sending ones where the
/// socket cannot send.
pub proof fn law_turns_keep_their_order(turn: Turn, c: Connection, seen: Seen)
    ensures
        ({
            let next = turn.after(c, seen).0.phase;
            match turn.phase {
                Phase::Abandon => next is Attach,
                Phase::Attach => next is Transfer,
                Phase::Transfer => if c.direct {
                    next is Transferred
                } else {
                    next is Deliver
                },
                Phase::Transferred => next is Deliver,
                Phase::Deliver => next is Send || next is Receive,
                Phase::Send => next is Finish || (next is Send && turn.after(c, seen).2 is Abort),
                Phase::Finish => next is Receive,
                Phase::Receive => next is Signal,
                Phase::Signal => next is TimeWait,
                Phase::TimeWait => next is Dispatch,
                Phase::Dispatch => next is Sent || (next is End && turn.tries >= 32),
                Phase::Sent => next is End || (next is Dispatch && seen.dispatched is Sent),
                Phase::End => turn.after(c, seen).2 is End,
            }
        }),
{
}

/// A socket is aborted only where its stream is of no use any more: the application
/// gave it up, did not get it within thirty seconds, or was gone when it was handed
/// over. In those cases it is aborted.
pub proof fn law_only_useless_streams_are_aborted(turn: Turn, c: Connection, seen: Seen)
    ensures
        turn.after(c, seen).2 is Abort <==> ({
            ||| turn.phase is Abandon && seen.abandoned
            ||| turn.phase is Abandon && c.waiting && seen.now - c.epoch >= 30_000
            ||| turn.phase is Send && turn.stream.deliver && seen.failed
        }),
{
}

/// A stream is handed to the application exactly once: when the socket can first
/// carry its bytes, and then the application waits no more.
pub proof fn law_streams_are_delivered_once(turn: Turn, c: Connection, seen: Seen)
    ensures
        ({
            let (next, after, action) = turn.after(c, seen);
            &&& action is Deliver <==> turn.phase is Deliver && c.waiting && !c.handed_over && (
            seen.socket.state is Established || seen.socket.state is CloseWait)
            &&& action is Deliver ==> !after.waiting
            &&& !(action is Deliver) ==> after.waiting == c.waiting
            &&& turn.phase is Deliver ==> (next.stream.deliver <==> action is Deliver)
            &&& !(turn.phase is Deliver) ==> next.stream.deliver == (turn.stream.deliver && !(
            turn.phase is Send && seen.failed))
            &&& after.epoch == c.epoch && after.started == c.started
        }),
{
}

/// An offered transfer is taken, once in the life of a connection, and from then on
/// the stream is the transfer's. While it runs, every turn polls it, or fails it where
/// the connection was lost; it ends as soon as it has a result, and a failed one takes
/// the socket with it.
pub proof fn law_transfers_run_to_their_end(turn: Turn, c: Connection, seen: Seen)
    ensures
        ({
            let (next, after, action) = turn.after(c, seen);
            let gone = seen.socket.state is Closed && !c.closed_normally;
            &&& action is StartTransfer <==> turn.phase is Attach && seen.offered && !c.handed_over
            &&& action is StartTransfer ==> after.handed_over && after.direct
            &&& c.handed_over ==> after.handed_over
            &&& action is PollTransfer <==> turn.phase is Transfer && c.direct && !gone
            &&& action is FailTransfer <==> turn.phase is Transfer && c.direct && gone
            &&& action is FinishTransfer <==> turn.phase is Transferred && c.direct && !(
            seen.transfer is Pending)
            &&& action matches Action::FinishTransfer { abort } ==> abort == (
            seen.transfer is Failed)
            &&& action is FinishTransfer ==> !after.direct
            &&& c.direct && !(action is FinishTransfer) ==> after.direct
            &&& !c.direct && !(action is StartTransfer) ==> !after.direct
            &&& !(action is StartTransfer) ==> after.handed_over == c.handed_over
        }),
{
}

/// What the socket has received goes to the application in every turn, unless a
/// transfer takes it.
pub proof fn law_received_bytes_are_moved(turn: Turn, c: Connection, seen: Seen)
    ensures
        turn.after(c, seen).2 is MoveIncoming <==> turn.phase is Receive && seen.socket.can_recv
            && !c.handed_over,
{
}

/// The application learns in every turn what became of its stream: a loss where the
/// socket closed although not both sides had ended their direction, and the end where
/// nothing more can come from the peer and the connection was not lost. It never
/// learns both, and the end only once it has the stream.
pub proof fn law_signals_tell_what_happened(turn: Turn, c: Connection, seen: Seen)
    ensures
        turn.after(c, seen).2 is Signal <==> turn.phase is Signal && !c.handed_over,
        turn.after(c, seen).2 matches Action::Signal(told) ==> {
            &&& told.reset <==> seen.socket.state is Closed && !c.closed_normally
            &&& told.eof ==> !told.reset && !c.waiting && !seen.socket.may_recv
            &&& !told.reset && !c.waiting && !seen.socket.may_recv ==> told.eof
        },
{
}

/// A connection is closed for the worker only when the device's queue is gone, the
/// socket is closed, or the worker stops while the socket waits for stray segments.
/// Only in the last case does the turn itself note a normal end.
pub proof fn law_connections_close_for_a_reason(turn: Turn, c: Connection, seen: Seen)
    ensures
        ({
            let (next, after, action) = turn.after(c, seen);
            let stops = turn.phase is TimeWait && seen.socket.state is TimeWait && seen.stopping;
            &&& action == Action::End(Progress::Closed) <==> {
                ||| stops
                ||| turn.phase is Sent && seen.dispatched is Gone
                ||| turn.phase is Sent && !(seen.dispatched is Full) && seen.socket.state is Closed
            }
            &&& stops ==> after.closed_normally
            &&& !stops ==> after.closed_normally == c.closed_normally
        }),
{
}

/// A turn tries to send until there is nothing to send or it has tried often enough:
/// at most thirty-two segments.
pub proof fn law_segments_are_tried_in_turn(turn: Turn, c: Connection, seen: Seen)
    ensures
        ({
            let (next, after, action) = turn.after(c, seen);
            &&& action is Dispatch <==> turn.phase is Dispatch && turn.tries < 32
            &&& action is Dispatch ==> next.tries == turn.tries + 1 && next.phase is Sent
            &&& !(action is Dispatch) ==> next.tries == turn.tries
            &&& turn.phase is Sent && seen.dispatched is Sent && !(seen.socket.state is Closed)
                ==> next.phase is Dispatch && action is Proceed
            &&& turn.phase is Sent && seen.dispatched is Nothing && !(seen.socket.state is Closed)
                ==> next.phase is End && action is Proceed
            &&& turn.phase is Sent && seen.dispatched is Full ==> action == Action::End(
                Progress::Blocked(seen.dispatched->Full_0),
            )
        }),
{
}

/// A turn that ends by itself runs again at once while there are bytes to move or the
/// socket asks for it, and otherwise at the time that the socket asks for, but no later
/// than thirty seconds after the start while the application waits for the stream.
pub proof fn law_idle_turns_come_back_in_time(turn: Turn, c: Connection, seen: Seen)
    requires
        c.wf(),
        turn.phase is End,
    ensures
        ({
            let action = turn.after(c, seen).2;
            let work = !c.handed_over && (seen.socket.can_recv || !seen.outgoing_empty);
            &&& action == Action::End(Progress::Again) <==> work || seen.poll_at is Now
            &&& !work && !(seen.poll_at is Now) ==> (action matches Action::End(progress)
                && progress is Idle)
            &&& action matches Action::End(Progress::Idle(deadline)) ==> {
                &&& seen.poll_at matches PollAt::Time(at) ==> deadline is Some && deadline->0 <= at
                &&& c.waiting ==> deadline is Some && deadline->0 - c.epoch <= 30_000
                &&& deadline matches Some(at) ==> seen.poll_at == PollAt::Time(at) || (c.waiting
                    && at - c.epoch == 30_000)
            }
        }),
{
}

} // verus!
