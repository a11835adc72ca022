//! Transfers between a connection and a socket that the flow's worker runs itself.
use crate::endpoint::counted;
use crate::exchange::passes;
use crate::shared;
use crate::shared::contents;
use crate::queue::{blocks_in, flat, lemma_flat_front, pop_block};
use crate::tcp::{Transfer, TURN};
use crate::tcp_storage::{joined, least, minus, Accounts, Storage};
use bytes::Bytes;
use crossbeam_queue::SegQueue;
use std::collections::VecDeque;
use vstd::prelude::*;

verus! {

/// A transfer in both directions. `upload` holds what the socket has yet to
/// accept, `download` what the connection has no room for yet.
pub struct Direct {
    upload: VecDeque<Bytes>,
    download: Bytes,
    peer_eof: bool,
    upload_done: bool,
    sent: u64,
    received: u64,
}

/// How a turn of the upload starts.
#[derive(Clone, Copy, Debug, PartialEq, Eq, Structural)]
enum UploadStart {
    /// The upload has ended before.
    Done,
    /// Offer all blocks to the socket.
    Write,
    /// There is nothing to offer.
    Settle,
}

/// What the upload does after a write.
#[derive(Clone, Copy, Debug, PartialEq, Eq, Structural)]
enum UploadNext {
    /// There is more to write: run again.
    Again,
    /// The peer has finished: close the socket's direction.
    Shutdown,
    /// Everything was written: flush.
    Flush,
}

/// What the download does next.
#[derive(Clone, Copy, Debug, PartialEq, Eq, Structural)]
enum DownloadNext {
    /// The socket has ended and all was moved.
    Done,
    /// The connection has no room.
    Pending,
    /// Read a block from the socket.
    Read,
    /// Move so many bytes to the connection.
    Move(usize),
    /// The turn is used up: run again.
    Again,
}

/// How a turn of a transfer stands.
#[derive(Clone, Copy, Debug, PartialEq, Eq, Structural)]
pub enum Phase {
    /// Gather what the socket gets.
    Upload,
    /// See what the socket accepted.
    Wrote,
    /// Decide what follows the write.
    Uploaded,
    /// See whether the socket's direction was closed.
    Closing,
    /// See whether the socket was flushed.
    Flushing,
    /// Move what the socket gave, after some rounds of this turn.
    Download { rounds: usize },
    /// See what the socket gives.
    Reading { rounds: usize },
    /// See how far the transfer has come.
    Finish,
}

/// What came of a call of the socket.
#[derive(Clone, Copy, Debug, PartialEq, Eq, Structural)]
pub enum Called {
    Done,
    Failed,
    Pending,
}

/// What is seen before a step. A step looks at what its phase needs.
#[derive(Clone, Copy, Debug, PartialEq, Eq, Structural)]
pub struct Seen {
    /// What came of the last call.
    pub called: Called,
    /// How many bytes the socket accepted, where the last call was a write.
    pub accepted: usize,
    /// The connection has more for the socket already.
    pub more: bool,
    /// The peer may still send.
    pub may_recv: bool,
    /// The allowance of the connection's direction to the peer, and how much of it
    /// is taken.
    pub target: usize,
    pub used: usize,
}

/// What the worker does next.
pub enum Action {
    /// Nothing here; go on with the next step.
    Proceed,
    /// Offer all blocks to the socket in one write.
    Write,
    /// Close the socket's direction.
    Shutdown,
    /// Flush the socket.
    Flush,
    /// Read a block from the socket, and hand it to `Direct::read`.
    Read,
    /// Move bytes to the connection.
    Move(Bytes),
    /// Close the connection's direction to the peer.
    CloseSend,
    /// Ask for another turn.
    Wake,
    /// The turn is over.
    End(Transfer),
}

/// Everything on its way to the socket: what waits for it, what was published
/// before the transfer, and what the connection has received in order.
pub open spec fn upstream(direct: &Direct, incoming: &SegQueue<Bytes>, storage: &Storage) -> Seq<
    u8,
> {
    direct.uploading() + flat(blocks_in(*incoming)) + storage@.ready
}

/// The bytes of some views start with those of the first.
proof fn lemma_joined_front(parts: Seq<Bytes>)
    requires
        parts.len() > 0,
    ensures
        joined(parts) == contents(parts[0]) + joined(parts.skip(1)),
    decreases parts.len(),
{
    if parts.len() == 1 {
        assert(parts.drop_last() =~= Seq::<Bytes>::empty());
        assert(parts.skip(1) =~= Seq::<Bytes>::empty());
        assert(joined(parts) =~= contents(parts[0]) + joined(parts.skip(1)));
    } else {
        lemma_joined_front(parts.drop_last());
        assert(parts.drop_last().skip(1) =~= parts.skip(1).drop_last());
        assert(joined(parts) =~= contents(parts[0]) + joined(parts.skip(1)));
    }
}

/// A block joins the end of some blocks.
proof fn lemma_joined_push(parts: Seq<Bytes>, bytes: Bytes)
    ensures
        joined(parts.push(bytes)) == joined(parts) + contents(bytes),
{
    assert(parts.push(bytes).drop_last() =~= parts);
}

impl Direct {
    /// The bytes that wait for the socket, in order.
    pub closed spec fn uploading(&self) -> Seq<u8> {
        joined(self.upload@)
    }

    /// How many blocks wait for the socket.
    pub closed spec fn blocks(&self) -> int {
        self.upload@.len() as int
    }

    /// The bytes that wait for room in the connection.
    pub closed spec fn downloading(&self) -> Seq<u8> {
        contents(self.download)
    }

    pub closed spec fn spec_peer_eof(&self) -> bool {
        self.peer_eof
    }

    pub closed spec fn spec_upload_done(&self) -> bool {
        self.upload_done
    }

    pub closed spec fn spec_sent(&self) -> u64 {
        self.sent
    }

    pub closed spec fn spec_received(&self) -> u64 {
        self.received
    }

    /// One write takes all waiting blocks.
    pub closed spec fn wf(&self) -> bool {
        self.upload@.len() <= TURN
    }

    /// Nothing of the download changes.
    pub open spec fn same_download(&self, other: &Direct) -> bool {
        &&& self.downloading() == other.downloading()
        &&& self.spec_peer_eof() == other.spec_peer_eof()
        &&& self.spec_received() == other.spec_received()
    }

    /// Nothing of the upload changes.
    pub open spec fn same_upload(&self, other: &Direct) -> bool {
        &&& self.uploading() == other.uploading()
        &&& self.blocks() == other.blocks()
        &&& self.spec_upload_done() == other.spec_upload_done()
        &&& self.spec_sent() == other.spec_sent()
    }

    /// What was published before the transfer joined the upload first, then what
    /// the connection had received in order, up to the blocks of one write. What
    /// came from the connection counts as outstanding.
    pub open spec fn gathers(
        &self,
        had: &Direct,
        incoming: &SegQueue<Bytes>,
        had_incoming: &SegQueue<Bytes>,
        storage: &Storage,
        had_storage: &Storage,
    ) -> bool {
        let taken = had_storage@.ready.len() - storage@.ready.len();
        &&& 0 <= taken
        &&& storage@.ready == had_storage@.ready.skip(taken)
        &&& storage@.ahead == had_storage@.ahead
        &&& storage.spec_accounts() == (Accounts {
            outstanding: (had_storage.spec_accounts().outstanding + taken) as usize,
            ..had_storage.spec_accounts()
        })
        &&& self.same_download(had)
        &&& self.spec_sent() == had.spec_sent()
        &&& self.spec_upload_done() == had.spec_upload_done()
        &&& had.spec_upload_done() ==> taken == 0 && self.same_upload(had) && blocks_in(*incoming)
            == blocks_in(*had_incoming)
        &&& taken > 0 ==> blocks_in(*incoming).len() == 0
        &&& self.uploading() + flat(blocks_in(*incoming)) == had.uploading() + flat(
            blocks_in(*had_incoming),
        ) + had_storage@.ready.take(taken)
        &&& !had.spec_upload_done() ==> self.blocks() == TURN || (blocks_in(*incoming).len() == 0
            && storage@.ready.len() == 0)
    }

    pub fn new() -> (r: Direct)
        ensures
            r.wf(),
            r.uploading() == Seq::<u8>::empty(),
            r.blocks() == 0,
            r.downloading() == Seq::<u8>::empty(),
            !r.spec_peer_eof(),
            !r.spec_upload_done(),
            r.spec_sent() == 0,
            r.spec_received() == 0,
    {
        let r = Direct {
            upload: VecDeque::new(),
            download: shared::from_vec(Vec::new()),
            peer_eof: false,
            upload_done: false,
            sent: 0,
            received: 0,
        };
        assert(r.downloading() =~= Seq::<u8>::empty());
        r
    }

    /// Takes blocks that were published before the transfer began. They come
    /// before anything that the socket receives.
    fn gather_published(&mut self, incoming: &mut SegQueue<Bytes>)
        requires
            old(self).wf(),
        ensures
            final(self).wf(),
            final(self).uploading() + flat(blocks_in(*final(incoming))) == old(self).uploading()
                + flat(blocks_in(*old(incoming))),
            final(self).blocks() == TURN || blocks_in(*final(incoming)).len() == 0,
            final(self).blocks() >= old(self).blocks(),
            final(self).same_download(old(self)),
            final(self).spec_sent() == old(self).spec_sent(),
            final(self).spec_upload_done() == old(self).spec_upload_done(),
    {
        let ghost all = self.uploading() + flat(blocks_in(*incoming));
        while self.upload.len() < TURN
            invariant_except_break
                self.wf(),
                self.uploading() + flat(blocks_in(*incoming)) == all,
                self.blocks() >= old(self).blocks(),
                self.same_download(old(self)),
                self.spec_sent() == old(self).spec_sent(),
                self.spec_upload_done() == old(self).spec_upload_done(),
            ensures
                self.wf(),
                self.uploading() + flat(blocks_in(*incoming)) == all,
                self.blocks() == TURN || blocks_in(*incoming).len() == 0,
                self.blocks() >= old(self).blocks(),
                self.same_download(old(self)),
                self.spec_sent() == old(self).spec_sent(),
                self.spec_upload_done() == old(self).spec_upload_done(),
            decreases TURN - self.upload.len(),
        {
            let ghost had = self.upload@;
            let ghost rest = blocks_in(*incoming);
            match pop_block(incoming) {
                Some(bytes) => {
                    self.upload.push_back(bytes);
                    proof {
                        lemma_joined_push(had, bytes);
                        lemma_flat_front(rest);
                        assert(self.uploading() + flat(blocks_in(*incoming)) =~= all);
                    }
                },
                None => {
                    break;
                },
            }
        }
    }

    /// Takes what the connection has received in order. Returns how many bytes
    /// those are.
    fn gather_received(&mut self, storage: &mut Storage) -> (r: usize)
        requires
            old(self).wf(),
            old(storage).wf(),
        ensures
            final(self).wf(),
            final(storage).wf(),
            r <= old(storage)@.ready.len(),
            final(self).uploading() == old(self).uploading() + old(storage)@.ready.take(r as int),
            final(storage)@.ready == old(storage)@.ready.skip(r as int),
            final(storage)@.ahead == old(storage)@.ahead,
            final(storage).position() == old(storage).position(),
            final(storage).same_accounts(*old(storage)),
            final(self).blocks() == TURN || final(storage)@.ready.len() == 0,
            final(self).same_download(old(self)),
            final(self).spec_sent() == old(self).spec_sent(),
            final(self).spec_upload_done() == old(self).spec_upload_done(),
    {
        let ghost ready = storage@.ready;
        let mut count: usize = 0;
        assert(ready.take(0) =~= Seq::<u8>::empty());
        assert(ready.skip(0) =~= ready);
        assert(self.uploading() =~= self.uploading() + ready.take(0));
        let total: usize = storage.len();
        while self.upload.len() < TURN
            invariant_except_break
                self.wf(),
                storage.wf(),
                count <= total,
                total == ready.len(),
                ready == old(storage)@.ready,
                self.uploading() == old(self).uploading() + ready.take(count as int),
                storage@.ready == ready.skip(count as int),
                storage@.ahead == old(storage)@.ahead,
                storage.position() == old(storage).position(),
                storage.same_accounts(*old(storage)),
                self.same_download(old(self)),
                self.spec_sent() == old(self).spec_sent(),
                self.spec_upload_done() == old(self).spec_upload_done(),
            ensures
                self.wf(),
                storage.wf(),
                count <= total,
                total == ready.len(),
                ready == old(storage)@.ready,
                self.uploading() == old(self).uploading() + ready.take(count as int),
                storage@.ready == ready.skip(count as int),
                storage@.ahead == old(storage)@.ahead,
                storage.position() == old(storage).position(),
                storage.same_accounts(*old(storage)),
                self.blocks() == TURN || storage@.ready.len() == 0,
                self.same_download(old(self)),
                self.spec_sent() == old(self).spec_sent(),
                self.spec_upload_done() == old(self).spec_upload_done(),
            decreases TURN - self.upload.len(),
        {
            let ghost had = self.upload@;
            let ghost before = storage@.ready;
            match storage.take() {
                Some(bytes) => {
                    let n: usize = bytes.len();
                    self.upload.push_back(bytes);
                    proof {
                        lemma_joined_push(had, bytes);
                        assert(before.take(n as int) =~= ready.subrange(
                            count as int,
                            count + n,
                        ));
                        assert(ready.take(count + n) =~= ready.take(count as int) + before.take(
                            n as int,
                        ));
                        assert(self.uploading() =~= old(self).uploading() + ready.take(count + n));
                        assert(storage@.ready =~= ready.skip(count + n));
                    }
                    count = count + n;
                },
                None => {
                    break;
                },
            }
        }
        count
    }

    /// Drops what the socket has accepted: a prefix of what was offered.
    fn accepted(&mut self, count: usize)
        requires
            old(self).wf(),
            count <= old(self).uploading().len(),
        ensures
            final(self).wf(),
            final(self).uploading() == old(self).uploading().skip(count as int),
            final(self).blocks() <= old(self).blocks(),
            final(self).spec_sent() == counted(old(self).spec_sent() + count),
            final(self).spec_upload_done() == old(self).spec_upload_done(),
            final(self).same_download(old(self)),
    {
        let ghost all = self.uploading();
        let mut remaining: usize = count;
        assert(all.skip(0) =~= all);
        while remaining > 0
            invariant
                self.wf(),
                remaining <= count <= all.len(),
                self.uploading() == all.skip(count - remaining),
                self.blocks() <= old(self).blocks(),
                self.spec_sent() == old(self).spec_sent(),
                self.spec_upload_done() == old(self).spec_upload_done(),
                self.same_download(old(self)),
            decreases remaining, self.upload@.len(),
        {
            let ghost before = self.upload@;
            match self.upload.pop_front() {
                Some(first) => {
                    let mut front = first;
                    let ghost whole = joined(before);
                    proof {
                        lemma_joined_front(before);
                        assert(before.subrange(1, before.len() as int) =~= before.skip(1));
                    }
                    let len: usize = front.len();
                    if len > remaining {
                        let _gone = front.split_to(remaining);
                        let ghost rest = self.upload@;
                        self.upload.push_front(front);
                        proof {
                            lemma_joined_front(self.upload@);
                            assert(self.upload@.skip(1) =~= rest);
                            assert(self.uploading() =~= whole.skip(remaining as int));
                            assert(whole.skip(remaining as int) =~= all.skip(count as int));
                        }
                        remaining = 0;
                    } else {
                        proof {
                            assert(self.uploading() =~= whole.skip(len as int));
                            assert(whole.skip(len as int) =~= all.skip(count - remaining + len));
                        }
                        remaining = remaining - len;
                    }
                },
                None => {
                    assert(joined(before) =~= Seq::<u8>::empty());
                    return ;
                },
            }
        }
        self.sent = self.sent.saturating_add(count as u64);
    }

    /// How many blocks wait for the socket.
    pub fn block_count(&self) -> (r: usize)
        requires
            self.wf(),
        ensures
            r == self.blocks(),
            r <= TURN,
    {
        self.upload.len()
    }

    /// The block at a place in the upload, for one write of all of them.
    pub fn block(&self, i: usize) -> (r: &Bytes)
        requires
            i < self.blocks(),
        ensures
            *r == self.spec_block(i as int),
    {
        &self.upload[i]
    }

    pub closed spec fn spec_block(&self, i: int) -> Bytes {
        self.upload@[i]
    }

    /// The blocks are what waits for the socket, in order.
    pub proof fn lemma_blocks(&self)
        ensures
            self.uploading() == joined(Seq::new(self.blocks() as nat, |i: int| self.spec_block(i))),
    {
        assert(Seq::new(self.blocks() as nat, |i: int| self.spec_block(i)) =~= self.upload@);
    }

    /// Starts a turn of the upload: what was published before the transfer comes
    /// first, then what the connection has received in order. One turn writes a
    /// bounded number of blocks. What is taken from the connection counts as
    /// outstanding until the socket has accepted it.
    fn upload(&mut self, incoming: &mut SegQueue<Bytes>, storage: &mut Storage) -> (r:
        UploadStart)
        requires
            old(self).wf(),
            old(storage).wf(),
            !old(storage).is_tx(),
            old(storage).spec_accounts().outstanding + old(storage)@.ready.len() <= usize::MAX,
        ensures
            final(self).wf(),
            final(storage).wf(),
            !final(storage).is_tx(),
            r == (if old(self).spec_upload_done() {
                UploadStart::Done
            } else if final(self).blocks() > 0 {
                UploadStart::Write
            } else {
                UploadStart::Settle
            }),
            final(self).gathers(
                old(self),
                final(incoming),
                old(incoming),
                final(storage),
                old(storage),
            ),
            upstream(final(self), final(incoming), final(storage)) == upstream(
                old(self),
                old(incoming),
                old(storage),
            ),
    {
        let ghost ready = storage@.ready;
        proof {
            assert(ready.skip(0) =~= ready);
            assert(ready.take(0) =~= Seq::<u8>::empty());
            let all = self.uploading() + flat(blocks_in(*incoming));
            assert(all + ready.take(0) =~= all);
        }
        if self.upload_done {
            return UploadStart::Done;
        }
        self.gather_published(incoming);
        let ghost mid = self.uploading();
        let ghost rest = flat(blocks_in(*incoming));
        if self.upload.len() < TURN {
            let taken: usize = self.gather_received(storage);
            proof {
                assert(rest =~= Seq::<u8>::empty());
                assert(self.uploading() + rest =~= (mid + rest) + ready.take(taken as int));
            }
            storage.hold(taken);
            proof {
                assert(ready.take(taken as int) + ready.skip(taken as int) =~= ready);
                assert(upstream(self, incoming, storage) =~= upstream(
                    old(self),
                    old(incoming),
                    old(storage),
                ));
            }
        }
        if self.upload.len() > 0 {
            UploadStart::Write
        } else {
            UploadStart::Settle
        }
    }

    /// Takes notice of a write: the socket accepted a prefix of what was offered.
    /// A socket that accepts nothing has failed.
    fn wrote(&mut self, storage: &mut Storage, count: usize) -> (r: bool)
        requires
            old(self).wf(),
            old(storage).wf(),
            !old(storage).is_tx(),
            count <= old(self).uploading().len() <= old(storage).spec_accounts().outstanding,
        ensures
            final(self).wf(),
            final(storage).wf(),
            !final(storage).is_tx(),
            r == (count > 0),
            final(self).uploading() == old(self).uploading().skip(count as int),
            final(self).spec_sent() == counted(old(self).spec_sent() + count),
            final(self).spec_upload_done() == old(self).spec_upload_done(),
            final(self).same_download(old(self)),
            final(storage)@ == old(storage)@,
            final(storage).spec_accounts() == (Accounts {
                outstanding: (old(storage).spec_accounts().outstanding - count) as usize,
                ..old(storage).spec_accounts()
            }),
    {
        self.accepted(count);
        storage.settle(count);
        count > 0
    }

    /// What the upload does after a write. `more` tells that the connection has
    /// more for it already, `may_recv` that the peer may still send.
    fn upload_next(&self, more: bool, may_recv: bool) -> (r: UploadNext)
        ensures
            r == (if self.blocks() > 0 || more {
                UploadNext::Again
            } else if !may_recv {
                UploadNext::Shutdown
            } else {
                UploadNext::Flush
            }),
    {
        if self.upload.len() > 0 || more {
            UploadNext::Again
        } else if !may_recv {
            UploadNext::Shutdown
        } else {
            UploadNext::Flush
        }
    }

    /// The socket's direction was closed after the last byte.
    fn finish_upload(&mut self)
        requires
            old(self).wf(),
            old(self).blocks() == 0,
        ensures
            final(self).wf(),
            final(self).spec_upload_done(),
            final(self).uploading() == old(self).uploading(),
            final(self).blocks() == 0,
            final(self).spec_sent() == old(self).spec_sent(),
            final(self).same_download(old(self)),
    {
        self.upload_done = true;
    }

    /// What the download does next, after `rounds` rounds of this turn and with an
    /// allowance of which `used` bytes are taken.
    fn download_next(&self, rounds: usize, target: usize, used: usize) -> (r: DownloadNext)
        ensures
            r == (if rounds >= TURN {
                DownloadNext::Again
            } else if self.spec_peer_eof() && self.downloading().len() == 0 {
                DownloadNext::Done
            } else if used >= target {
                DownloadNext::Pending
            } else if self.downloading().len() == 0 {
                DownloadNext::Read
            } else {
                DownloadNext::Move(
                    least(
                        minus(target as int, used as int),
                        self.downloading().len() as int,
                    ) as usize,
                )
            }),
    {
        if rounds >= TURN {
            return DownloadNext::Again;
        }
        let waiting: usize = self.download.len();
        if self.peer_eof && waiting == 0 {
            return DownloadNext::Done;
        }
        let available: usize = target.saturating_sub(used);
        if available == 0 {
            return DownloadNext::Pending;
        }
        if waiting == 0 {
            return DownloadNext::Read;
        }
        if available < waiting {
            DownloadNext::Move(available)
        } else {
            DownloadNext::Move(waiting)
        }
    }

    /// Takes a block that was read from the socket. An empty one is its end: the
    /// connection's direction to the peer is then closed. Tells whether it is.
    pub fn read(&mut self, bytes: Bytes) -> (r: bool)
        requires
            old(self).wf(),
            old(self).downloading().len() == 0,
        ensures
            final(self).wf(),
            r == (contents(bytes).len() == 0),
            final(self).downloading() == contents(bytes),
            final(self).spec_peer_eof() == (old(self).spec_peer_eof() || r),
            final(self).spec_received() == old(self).spec_received(),
            final(self).same_upload(old(self)),
    {
        let end: bool = bytes.len() == 0;
        self.download = bytes;
        if end {
            self.peer_eof = true;
        }
        end
    }

    /// Takes the first `count` bytes, for the connection.
    fn take_download(&mut self, count: usize) -> (r: Bytes)
        requires
            old(self).wf(),
            count <= old(self).downloading().len(),
        ensures
            final(self).wf(),
            contents(r) == old(self).downloading().take(count as int),
            final(self).downloading() == old(self).downloading().skip(count as int),
            final(self).spec_received() == counted(old(self).spec_received() + count),
            final(self).spec_peer_eof() == old(self).spec_peer_eof(),
            final(self).same_upload(old(self)),
    {
        let bytes = self.download.split_to(count);
        self.received = self.received.saturating_add(count as u64);
        bytes
    }

    /// Whether both directions are done.
    fn done(&self) -> (r: bool)
        ensures
            r == (self.spec_upload_done() && self.spec_peer_eof() && self.downloading().len()
                == 0),
    {
        self.upload_done && self.peer_eof && self.download.len() == 0
    }
}

/// The mathematical content of a transfer.
#[verifier::ext_equal]
pub struct DirectView {
    pub uploading: Seq<u8>,
    pub blocks: int,
    pub downloading: Seq<u8>,
    pub peer_eof: bool,
    pub upload_done: bool,
    pub sent: u64,
    pub received: u64,
}

/// How much moves to the connection at once: what waits, as far as the allowance goes.
pub open spec fn movable(d: DirectView, seen: Seen) -> int {
    least(minus(seen.target as int, seen.used as int), d.downloading.len() as int)
}

/// One step of a turn: from a transfer in a phase, and after what was seen, to the
/// transfer and the phase after it, and to what is done.
pub open spec fn steps(
    had: DirectView,
    phase: Phase,
    seen: Seen,
    now: DirectView,
    next: Phase,
    action: Action,
) -> bool {
    match phase {
        Phase::Upload => {
            &&& now == (DirectView { uploading: now.uploading, blocks: now.blocks, ..had })
            &&& if had.upload_done {
                now == had && action is Proceed && next == (Phase::Download { rounds: 0 })
            } else if now.blocks > 0 {
                action is Write && next == Phase::Wrote
            } else {
                action is Proceed && next == Phase::Uploaded
            }
        },
        Phase::Wrote => match seen.called {
            Called::Pending => now == had && action is Proceed && next == (Phase::Download {
                rounds: 0,
            }),
            Called::Failed => now == had && action == Action::End(Transfer::Failed),
            Called::Done => {
                &&& now == (DirectView {
                    uploading: had.uploading.skip(seen.accepted as int),
                    blocks: now.blocks,
                    sent: counted(had.sent + seen.accepted),
                    ..had
                })
                &&& if seen.accepted == 0 {
                    action == Action::End(Transfer::Failed)
                } else {
                    action is Proceed && next == Phase::Uploaded
                }
            },
        },
        Phase::Uploaded => {
            &&& now == had
            &&& if had.blocks > 0 || seen.more {
                action is Wake && next == (Phase::Download { rounds: 0 })
            } else if !seen.may_recv {
                action is Shutdown && next == Phase::Closing
            } else {
                action is Flush && next == Phase::Flushing
            }
        },
        Phase::Closing => {
            &&& now == (DirectView {
                upload_done: had.upload_done || seen.called == Called::Done,
                blocks: 0,
                ..had
            })
            &&& if seen.called == Called::Failed {
                action == Action::End(Transfer::Failed)
            } else {
                action is Proceed && next == (Phase::Download { rounds: 0 })
            }
        },
        Phase::Flushing => {
            &&& now == had
            &&& if seen.called == Called::Failed {
                action == Action::End(Transfer::Failed)
            } else {
                action is Proceed && next == (Phase::Download { rounds: 0 })
            }
        },
        Phase::Download { rounds } => if rounds >= TURN {
            action is Wake && next == Phase::Finish && now == had
        } else if (had.peer_eof && had.downloading.len() == 0) || seen.used >= seen.target {
            action is Proceed && next == Phase::Finish && now == had
        } else if had.downloading.len() == 0 {
            action is Read && next == (Phase::Reading { rounds }) && now == had
        } else {
            let count = movable(had, seen);
            &&& action matches Action::Move(bytes) && contents(bytes) == had.downloading.take(count)
            &&& now == (DirectView {
                downloading: had.downloading.skip(count),
                received: counted(had.received + count),
                ..had
            })
            &&& next == (Phase::Download { rounds: (rounds + 1) as usize })
        },
        Phase::Reading { rounds } => {
            &&& now == had
            &&& match seen.called {
                Called::Failed => action == Action::End(Transfer::Failed),
                Called::Pending => action is Proceed && next == Phase::Finish,
                Called::Done => if had.peer_eof {
                    action is CloseSend && next == Phase::Finish
                } else {
                    action is Proceed && next == (Phase::Download { rounds })
                },
            }
        },
        Phase::Finish => {
            &&& now == had
            &&& action == Action::End(
                if had.upload_done && had.peer_eof && had.downloading.len() == 0 {
                    Transfer::Done
                } else {
                    Transfer::Pending
                },
            )
        },
    }
}

impl Direct {
    /// What a transfer holds and has done.
    pub open spec fn state(&self) -> DirectView {
        DirectView {
            uploading: self.uploading(),
            blocks: self.blocks(),
            downloading: self.downloading(),
            peer_eof: self.spec_peer_eof(),
            upload_done: self.spec_upload_done(),
            sent: self.spec_sent(),
            received: self.spec_received(),
        }
    }
}

impl Direct {
    /// Takes one step of a turn. The upload goes first: one write of all blocks,
    /// and once the peer has finished and everything was written, the socket's
    /// direction is closed. The download follows, as far as the connection's
    /// allowance and a number of rounds permit. A call that fails ends the
    /// transfer; one that has to wait holds up its own direction only.
    pub fn poll(
        &mut self,
        phase: &mut Phase,
        seen: &Seen,
        incoming: &mut SegQueue<Bytes>,
        storage: &mut Storage,
    ) -> (r: Action)
        requires
            old(self).wf(),
            old(storage).wf(),
            !old(storage).is_tx(),
            *old(phase) == Phase::Upload ==> old(storage).spec_accounts().outstanding
                + old(storage)@.ready.len() <= usize::MAX,
            *old(phase) == Phase::Wrote && seen.called == Called::Done ==> seen.accepted
                <= old(self).uploading().len() <= old(storage).spec_accounts().outstanding,
            *old(phase) == Phase::Closing ==> old(self).blocks() == 0,
        ensures
            final(self).wf(),
            final(storage).wf(),
            !final(storage).is_tx(),
            passes(
                upstream(old(self), old(incoming), old(storage)),
                Seq::empty(),
                if *old(phase) == Phase::Wrote && seen.called == Called::Done {
                    old(self).uploading().take(seen.accepted as int)
                } else {
                    Seq::empty()
                },
                upstream(final(self), final(incoming), final(storage)),
            ),
            *final(phase) == Phase::Closing ==> final(self).blocks() == 0,
            *old(phase) == Phase::Upload || *final(incoming) == *old(incoming),
            *old(phase) == Phase::Upload || *old(phase) == Phase::Wrote || *final(storage)
                == *old(storage),
            steps(
                old(self).state(),
                *old(phase),
                *seen,
                final(self).state(),
                *final(phase),
                r,
            ),
            *old(phase) == Phase::Upload ==> final(self).gathers(
                old(self),
                final(incoming),
                old(incoming),
                final(storage),
                old(storage),
            ),
            *old(phase) == Phase::Wrote ==> if seen.called == Called::Done {
                &&& final(storage)@ == old(storage)@
                &&& final(storage).spec_accounts() == (Accounts {
                    outstanding: (old(storage).spec_accounts().outstanding
                        - seen.accepted) as usize,
                    ..old(storage).spec_accounts()
                })
            } else {
                *final(self) == *old(self) && *final(storage) == *old(storage)
            },
            match *old(phase) {
                Phase::Uploaded | Phase::Flushing | Phase::Reading { .. } | Phase::Finish =>
                    *final(self) == *old(self),
                Phase::Download { .. } => !(r is Move) ==> *final(self) == *old(self),
                _ => true,
            },
    {
        let ghost before = upstream(self, incoming, storage);
        assert(before + Seq::<u8>::empty() =~= before);
        assert(Seq::<u8>::empty() + before =~= before);
        match *phase {
            Phase::Upload => match self.upload(incoming, storage) {
                UploadStart::Done => {
                    *phase = Phase::Download { rounds: 0 };
                    Action::Proceed
                },
                UploadStart::Write => {
                    *phase = Phase::Wrote;
                    Action::Write
                },
                UploadStart::Settle => {
                    *phase = Phase::Uploaded;
                    Action::Proceed
                },
            },
            Phase::Wrote => match seen.called {
                Called::Failed => Action::End(Transfer::Failed),
                Called::Pending => {
                    *phase = Phase::Download { rounds: 0 };
                    Action::Proceed
                },
                Called::Done => {
                    let ghost waiting = self.uploading();
                    let more = self.wrote(storage, seen.accepted);
                    proof {
                        let n = seen.accepted as int;
                        assert(waiting.take(n) + upstream(self, incoming, storage) =~= before);
                    }
                    if more {
                        *phase = Phase::Uploaded;
                        Action::Proceed
                    } else {
                        Action::End(Transfer::Failed)
                    }
                },
            },
            Phase::Uploaded => match self.upload_next(seen.more, seen.may_recv) {
                UploadNext::Again => {
                    *phase = Phase::Download { rounds: 0 };
                    Action::Wake
                },
                UploadNext::Shutdown => {
                    *phase = Phase::Closing;
                    Action::Shutdown
                },
                UploadNext::Flush => {
                    *phase = Phase::Flushing;
                    Action::Flush
                },
            },
            Phase::Closing => match seen.called {
                Called::Failed => Action::End(Transfer::Failed),
                Called::Pending => {
                    *phase = Phase::Download { rounds: 0 };
                    Action::Proceed
                },
                Called::Done => {
                    self.finish_upload();
                    *phase = Phase::Download { rounds: 0 };
                    Action::Proceed
                },
            },
            Phase::Flushing => match seen.called {
                Called::Failed => Action::End(Transfer::Failed),
                _ => {
                    *phase = Phase::Download { rounds: 0 };
                    Action::Proceed
                },
            },
            Phase::Download { rounds } => match self.download_next(rounds, seen.target, seen.used) {
                DownloadNext::Again => {
                    *phase = Phase::Finish;
                    Action::Wake
                },
                DownloadNext::Done => {
                    *phase = Phase::Finish;
                    Action::Proceed
                },
                DownloadNext::Pending => {
                    *phase = Phase::Finish;
                    Action::Proceed
                },
                DownloadNext::Read => {
                    *phase = Phase::Reading { rounds };
                    Action::Read
                },
                DownloadNext::Move(count) => {
                    *phase = Phase::Download { rounds: rounds + 1 };
                    Action::Move(self.take_download(count))
                },
            },
            Phase::Reading { rounds } => match seen.called {
                Called::Failed => Action::End(Transfer::Failed),
                Called::Pending => {
                    *phase = Phase::Finish;
                    Action::Proceed
                },
                Called::Done => {
                    if self.peer_eof {
                        *phase = Phase::Finish;
                        Action::CloseSend
                    } else {
                        *phase = Phase::Download { rounds };
                        Action::Proceed
                    }
                },
            },
            Phase::Finish => {
                if self.done() {
                    Action::End(Transfer::Done)
                } else {
                    Action::End(Transfer::Pending)
                }
            },
        }
    }

    /// What the transfer comes to: the bytes in both directions, unless it failed.
    pub fn finish(self, failed: bool) -> (r: Option<(u64, u64)>)
        ensures
            r == (if failed {
                None
            } else {
                Some((self.spec_sent(), self.spec_received()))
            }),
    {
        if failed {
            None
        } else {
            Some((self.sent, self.received))
        }
    }
}

/// A transfer fails only where the socket does: a call of it fails, or a write of waiting
/// bytes takes none of them. It is done exactly when the socket's direction was closed,
/// the socket has ended, and all that it gave was moved.
pub proof fn law_transfers_end_with_both_directions(
    had: DirectView,
    phase: Phase,
    seen: Seen,
    now: DirectView,
    next: Phase,
    action: Action,
)
    requires
        steps(had, phase, seen, now, next, action),
    ensures
        action == Action::End(Transfer::Failed) <==> {
            ||| seen.called is Failed && (phase is Wrote || phase is Closing || phase is Flushing
                || phase is Reading)
            ||| phase is Wrote && seen.called is Done && seen.accepted == 0
        },
        action == Action::End(Transfer::Done) <==> phase is Finish && had.upload_done
            && had.peer_eof && had.downloading.len() == 0,
        action == Action::End(Transfer::Pending) <==> phase is Finish && !(had.upload_done
            && had.peer_eof && had.downloading.len() == 0),
{
}

/// The socket's direction is closed only behind the last byte of the peer: nothing waits
/// for the socket, the connection has nothing more for it, and the peer may not send any
/// more. It counts as closed only once the socket says so. While the peer may send, the
/// socket is flushed instead.
pub proof fn law_the_socket_ends_behind_the_last_byte(
    had: DirectView,
    phase: Phase,
    seen: Seen,
    now: DirectView,
    next: Phase,
    action: Action,
)
    requires
        steps(had, phase, seen, now, next, action),
        had.blocks >= 0,
    ensures
        action is Shutdown <==> phase is Uploaded && had.blocks == 0 && !seen.more
            && !seen.may_recv,
        action is Flush <==> phase is Uploaded && had.blocks == 0 && !seen.more && seen.may_recv,
        action is Shutdown ==> next is Closing,
        now.upload_done <==> had.upload_done || (phase is Closing && seen.called is Done),
        phase is Uploaded && (had.blocks > 0 || seen.more) ==> action is Wake,
{
}

/// The socket takes a prefix of what was offered, and that much is counted; nothing else
/// of the upload leaves. Whatever becomes of the upload, the download goes on in the same
/// turn, unless the socket failed.
pub proof fn law_writes_take_a_prefix(
    had: DirectView,
    phase: Phase,
    seen: Seen,
    now: DirectView,
    next: Phase,
    action: Action,
)
    requires
        steps(had, phase, seen, now, next, action),
        seen.accepted <= had.uploading.len(),
    ensures
        phase is Wrote && seen.called is Done ==> had.uploading.take(seen.accepted as int)
            + now.uploading == had.uploading && (had.sent + seen.accepted <= u64::MAX ==> now.sent
            == had.sent + seen.accepted),
        !(phase is Upload) && !(phase is Wrote && seen.called is Done) ==> now.uploading
            == had.uploading && now.sent == had.sent,
        phase is Upload ==> now.sent == had.sent && now.upload_done == had.upload_done,
        action is Write <==> phase is Upload && !had.upload_done && now.blocks > 0,
        (phase is Wrote || phase is Closing || phase is Flushing) && seen.called is Pending
            ==> action is Proceed && next == (Phase::Download { rounds: 0 }),
        phase is Uploaded && action is Wake ==> next == (Phase::Download { rounds: 0 }),
        (phase is Closing || phase is Flushing) && seen.called is Done ==> next == (
        Phase::Download { rounds: 0 }),
{
    if phase is Wrote && seen.called is Done {
        assert(had.uploading.take(seen.accepted as int) + had.uploading.skip(seen.accepted as int)
            =~= had.uploading);
    }
}

/// What the socket gave moves to the connection in order, within its allowance, and all of
/// it that has room; that much is counted. The socket is read only when everything that it
/// gave before was moved and there is room, at most thirty-two rounds in a turn. Its end
/// closes the direction to the peer.
pub proof fn law_reads_move_within_the_allowance(
    had: DirectView,
    phase: Phase,
    seen: Seen,
    now: DirectView,
    next: Phase,
    action: Action,
)
    requires
        steps(had, phase, seen, now, next, action),
    ensures
        action matches Action::Move(bytes) ==> {
            &&& phase is Download
            &&& contents(bytes) + now.downloading == had.downloading
            &&& 0 < contents(bytes).len()
            &&& seen.used + contents(bytes).len() <= seen.target
            &&& now.downloading.len() == 0 || seen.used + contents(bytes).len() == seen.target
            &&& had.received + contents(bytes).len() <= u64::MAX ==> now.received == had.received
                + contents(bytes).len()
        },
        !(action is Move) ==> now.downloading == had.downloading && now.received == had.received,
        now.peer_eof == had.peer_eof,
        action is Read ==> had.downloading.len() == 0 && !had.peer_eof && seen.used < seen.target,
        phase matches Phase::Download { rounds } ==> {
            &&& action is Read || action is Move ==> rounds < 32
            &&& rounds < 32 && seen.used < seen.target && had.downloading.len() > 0
                ==> action is Move && next == (Phase::Download { rounds: (rounds + 1) as usize })
            &&& rounds < 32 && seen.used < seen.target && had.downloading.len() == 0
                && !had.peer_eof ==> action is Read && next == (Phase::Reading { rounds })
            &&& rounds >= 32 ==> action is Wake
        },
        action is CloseSend <==> phase is Reading && seen.called is Done && had.peer_eof,
        phase is Reading && seen.called is Done && !had.peer_eof ==> next is Download,
        phase is Reading && seen.called is Pending ==> next is Finish,
{
    if action is Move {
        let count = movable(had, seen);
        assert(had.downloading.take(count) + had.downloading.skip(count) =~= had.downloading);
    }
}

/// A turn of the upload gathers all that there is, up to the thirty-two blocks of one write,
/// and keeps the order of the stream: what waited first, then what was published before the
/// transfer, then what the connection has received. What it takes from the connection counts
/// as held until the socket has it.
pub proof fn law_uploads_gather_in_order(
    now: &Direct,
    had: &Direct,
    incoming: &SegQueue<Bytes>,
    had_incoming: &SegQueue<Bytes>,
    storage: &Storage,
    had_storage: &Storage,
)
    requires
        now.gathers(had, incoming, had_incoming, storage, had_storage),
        had_storage.spec_accounts().outstanding + had_storage@.ready.len() <= usize::MAX,
    ensures
        upstream(now, incoming, storage) == upstream(had, had_incoming, had_storage),
        !had.spec_upload_done() ==> now.blocks() == 32 || (blocks_in(*incoming).len() == 0
            && storage@.ready.len() == 0),
        had.spec_upload_done() ==> now.uploading() == had.uploading() && storage@.ready
            == had_storage@.ready,
        storage.spec_accounts().outstanding - had_storage.spec_accounts().outstanding
            == had_storage@.ready.len() - storage@.ready.len(),
        storage.spec_accounts().released == had_storage.spec_accounts().released,
        storage@.ahead == had_storage@.ahead,
        now.downloading() == had.downloading(),
        now.spec_sent() == had.spec_sent(),
{
    let taken = had_storage@.ready.len() - storage@.ready.len();
    let ready = had_storage@.ready;
    assert(ready.take(taken) + ready.skip(taken) =~= ready);
    assert(upstream(now, incoming, storage) =~= upstream(had, had_incoming, had_storage));
    if had.spec_upload_done() {
        assert(ready.skip(0) =~= ready);
    }
}

} // verus!
