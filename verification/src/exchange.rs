//! Blocks on their way between a connection and the application's half of its
//! stream, a bounded number in each turn.
use crate::queue::{blocks_in, flat, lemma_flat_front, lemma_flat_take, pop_block};
use crate::shared::contents;
use crate::tcp::{Connection, Reader, Signals, TURN};
use crate::tcp_storage::{Accounts, Storage};
use bytes::Bytes;
use crossbeam_queue::SegQueue;
use vstd::prelude::*;

verus! {

/// One step of a stream through a place that holds a part of it: what was inside, and
/// what has arrived behind it, is what has left and what is inside now.
pub open spec fn passes<A>(
    before: Seq<A>,
    arrived: Seq<A>,
    left: Seq<A>,
    after: Seq<A>,
) -> bool {
    before + arrived == left + after
}

/// How many blocks were moved, and how many bytes they hold.
#[derive(Clone, Copy, Debug, PartialEq, Eq, Structural)]
pub struct Moved {
    pub blocks: usize,
    pub bytes: usize,
}

/// The accounts after the application got, or gave, some more bytes.
pub open spec fn held(accounts: Accounts, bytes: int) -> Accounts {
    Accounts { outstanding: (accounts.outstanding + bytes) as usize, ..accounts }
}

/// Moves what the connection has received in order to the application, which holds
/// it until it has consumed it.
pub fn deliver(storage: &mut Storage, reader: &mut Reader) -> (r: Moved)
    requires
        old(storage).wf(),
        old(reader).wf(),
        old(reader).spec_used() + old(storage)@.ready.len() <= usize::MAX,
        old(storage).spec_accounts().outstanding + old(storage)@.ready.len() <= usize::MAX,
    ensures
        final(storage).wf(),
        final(reader).wf(),
        r.blocks <= TURN,
        r.bytes <= old(storage)@.ready.len(),
        r.blocks == TURN || r.bytes == old(storage)@.ready.len(),
        r.bytes >= r.blocks,
        final(reader)@ == old(reader)@ + old(storage)@.ready.take(r.bytes as int),
        final(reader).spec_used() == old(reader).spec_used() + r.bytes,
        final(reader).spec_consumed() == old(reader).spec_consumed(),
        final(reader).spec_ended() == old(reader).spec_ended(),
        final(reader).spec_head() == old(reader).spec_head(),
        final(storage)@.ready == old(storage)@.ready.skip(r.bytes as int),
        final(storage)@.ahead == old(storage)@.ahead,
        final(storage).position() == old(storage).position(),
        final(storage).is_tx() == old(storage).is_tx(),
        final(storage).spec_accounts() == held(old(storage).spec_accounts(), r.bytes as int),
        final(storage).dropped_front(*old(storage), r.bytes as int),
        passes(
            old(reader)@ + old(storage)@.ready,
            Seq::empty(),
            Seq::empty(),
            final(reader)@ + final(storage)@.ready,
        ),
{
    let ghost ready = storage@.ready;
    let mut moved = Moved { blocks: 0, bytes: 0 };
    proof {
        assert(ready.take(0) =~= Seq::<u8>::empty());
        assert(ready.skip(0) =~= ready);
        assert(reader@ + ready.take(0) =~= reader@);
    }
    while moved.blocks < TURN
        invariant_except_break
            storage.wf(),
            reader.wf(),
            ready == old(storage)@.ready,
            old(reader).spec_used() + ready.len() <= usize::MAX,
            old(storage).spec_accounts().outstanding + ready.len() <= usize::MAX,
            moved.blocks <= TURN,
            moved.blocks <= moved.bytes <= ready.len(),
            reader@ == old(reader)@ + ready.take(moved.bytes as int),
            reader.spec_used() == old(reader).spec_used() + moved.bytes,
            reader.spec_consumed() == old(reader).spec_consumed(),
            reader.spec_ended() == old(reader).spec_ended(),
            reader.spec_head() == old(reader).spec_head(),
            storage@.ready == ready.skip(moved.bytes as int),
            storage@.ahead == old(storage)@.ahead,
            storage.position() == old(storage).position(),
            storage.is_tx() == old(storage).is_tx(),
            storage.spec_accounts() == held(old(storage).spec_accounts(), moved.bytes as int),
            storage.dropped_front(*old(storage), moved.bytes as int),
        ensures
            storage.wf(),
            reader.wf(),
            moved.blocks <= TURN,
            moved.blocks <= moved.bytes <= ready.len(),
            moved.blocks == TURN || moved.bytes == ready.len(),
            reader@ == old(reader)@ + ready.take(moved.bytes as int),
            reader.spec_used() == old(reader).spec_used() + moved.bytes,
            reader.spec_consumed() == old(reader).spec_consumed(),
            reader.spec_ended() == old(reader).spec_ended(),
            reader.spec_head() == old(reader).spec_head(),
            storage@.ready == ready.skip(moved.bytes as int),
            storage@.ahead == old(storage)@.ahead,
            storage.position() == old(storage).position(),
            storage.is_tx() == old(storage).is_tx(),
            storage.spec_accounts() == held(old(storage).spec_accounts(), moved.bytes as int),
            storage.dropped_front(*old(storage), moved.bytes as int),
        decreases TURN - moved.blocks,
    {
        let ghost before = storage@.ready;
        let ghost earlier = *storage;
        let ghost at = moved.bytes as int;
        match storage.take() {
            Some(bytes) => {
                let count: usize = bytes.len();
                proof {
                    let n = count as int;
                    assert(before.len() == ready.len() - at);
                    assert(ready.take(at + n) =~= ready.take(at) + before.take(n));
                    assert(before.skip(n) =~= ready.skip(at + n));
                }
                storage.hold(count);
                proof {
                    assert forall|o: int| 0 <= o implies #[trigger] storage.reach(o) == old(
                        storage).reach(o + (at + count)) - (at + count) by {
                        assert(storage.reach(o) == earlier.reach(o + count) - count);
                        assert(earlier.reach(o + count) == old(storage).reach(o + count + at) - at);
                    }
                }
                reader.publish(bytes);
                assert(reader@ =~= old(reader)@ + ready.take(at + count));
                moved = Moved { blocks: moved.blocks + 1, bytes: moved.bytes + count };
            },
            None => {
                break;
            },
        }
    }
    proof {
        let all = old(reader)@ + ready;
        assert(reader@ + storage@.ready =~= all);
        assert(all + Seq::<u8>::empty() =~= Seq::<u8>::empty() + all);
    }
    moved
}

/// Moves blocks of the application to the connection, which holds them until the
/// peer has acknowledged them.
pub fn accept(outgoing: &mut SegQueue<Bytes>, storage: &mut Storage) -> (r: Moved)
    requires
        old(storage).wf(),
        old(storage)@.ahead.dom() =~= Set::<int>::empty(),
        old(storage).position() + flat(blocks_in(*old(outgoing))).len() <= usize::MAX,
        old(storage).spec_accounts().outstanding + flat(blocks_in(*old(outgoing))).len()
            <= usize::MAX,
    ensures
        final(storage).wf(),
        r.blocks <= TURN,
        r.blocks == TURN || r.blocks == blocks_in(*old(outgoing)).len(),
        r.blocks <= blocks_in(*old(outgoing)).len(),
        blocks_in(*final(outgoing)) == blocks_in(*old(outgoing)).skip(r.blocks as int),
        r.bytes == flat(blocks_in(*old(outgoing)).take(r.blocks as int)).len(),
        final(storage)@.ready == old(storage)@.ready + flat(
            blocks_in(*old(outgoing)).take(r.blocks as int),
        ),
        final(storage)@.ahead.dom() =~= Set::<int>::empty(),
        final(storage).position() == old(storage).position() + r.bytes,
        final(storage).is_tx() == old(storage).is_tx(),
        final(storage).spec_accounts() == held(old(storage).spec_accounts(), r.bytes as int),
        forall|o: int|
            0 <= o < old(storage)@.ready.len() ==> #[trigger] final(storage).reach(o) == old(
                storage).reach(o),
        final(storage).appended(
            old(storage)@.ready.len() as int,
            blocks_in(*old(outgoing)).take(r.blocks as int),
        ),
        passes(
            old(storage)@.ready + flat(blocks_in(*old(outgoing))),
            Seq::empty(),
            Seq::empty(),
            final(storage)@.ready + flat(blocks_in(*final(outgoing))),
        ),
{
    let ghost all = blocks_in(*outgoing);
    let mut moved = Moved { blocks: 0, bytes: 0 };
    proof {
        assert(all.take(0) =~= Seq::<Seq<u8>>::empty());
        assert(all.skip(0) =~= all);
        assert(storage@.ready + flat(all.take(0)) =~= storage@.ready);
        assert(flat(all.take(0)) + flat(all) =~= flat(all));
    }
    while moved.blocks < TURN
        invariant_except_break
            storage.wf(),
            all == blocks_in(*old(outgoing)),
            moved.blocks <= TURN,
            moved.blocks <= all.len(),
            blocks_in(*outgoing) == all.skip(moved.blocks as int),
            moved.bytes == flat(all.take(moved.blocks as int)).len(),
            moved.bytes + flat(blocks_in(*outgoing)).len() == flat(all).len(),
            flat(all.take(moved.blocks as int)) + flat(blocks_in(*outgoing)) == flat(all),
            storage@.ready == old(storage)@.ready + flat(all.take(moved.blocks as int)),
            storage@.ahead.dom() =~= Set::<int>::empty(),
            storage.position() == old(storage).position() + moved.bytes,
            old(storage).position() + flat(all).len() <= usize::MAX,
            old(storage).spec_accounts().outstanding + flat(all).len() <= usize::MAX,
            storage.is_tx() == old(storage).is_tx(),
            storage.spec_accounts() == held(old(storage).spec_accounts(), moved.bytes as int),
            forall|o: int|
                0 <= o < old(storage)@.ready.len() ==> #[trigger] storage.reach(o) == old(
                    storage).reach(o),
            storage.appended(
                old(storage)@.ready.len() as int,
                all.take(moved.blocks as int),
            ),
        ensures
            storage.wf(),
            moved.blocks <= TURN,
            moved.blocks <= all.len(),
            moved.blocks == TURN || moved.blocks == all.len(),
            blocks_in(*outgoing) == all.skip(moved.blocks as int),
            moved.bytes == flat(all.take(moved.blocks as int)).len(),
            flat(all.take(moved.blocks as int)) + flat(blocks_in(*outgoing)) == flat(all),
            storage@.ready == old(storage)@.ready + flat(all.take(moved.blocks as int)),
            storage@.ahead.dom() =~= Set::<int>::empty(),
            storage.position() == old(storage).position() + moved.bytes,
            storage.is_tx() == old(storage).is_tx(),
            storage.spec_accounts() == held(old(storage).spec_accounts(), moved.bytes as int),
            forall|o: int|
                0 <= o < old(storage)@.ready.len() ==> #[trigger] storage.reach(o) == old(
                    storage).reach(o),
            storage.appended(
                old(storage)@.ready.len() as int,
                all.take(moved.blocks as int),
            ),
        decreases TURN - moved.blocks,
    {
        let ghost earlier = *storage;
        let ghost rest = blocks_in(*outgoing);
        let ghost at = moved.blocks as int;
        match pop_block(outgoing) {
            Some(bytes) => {
                let count: usize = bytes.len();
                proof {
                    lemma_flat_front(rest);
                    assert(rest[0] == all[at]);
                    assert(rest.skip(1) =~= all.skip(at + 1));
                    assert(all.take(at + 1).drop_last() =~= all.take(at));
                    assert(all.take(at + 1).last() == contents(bytes));
                    assert(flat(all.take(at + 1)) + flat(rest.skip(1)) =~= flat(all.take(at))
                        + flat(rest));
                }
                storage.hold(count);
                storage.push(bytes);
                assert(storage@.ready =~= old(storage)@.ready + flat(all.take(at + 1)));
                proof {
                    let had = old(storage)@.ready.len() as int;
                    let blocks = all.take(at + 1);
                    assert forall|i: int, o: int|
                        0 <= i < blocks.len() && had + flat(blocks.take(i)).len() <= o < had + flat(
                            blocks.take(i + 1),
                        ).len() implies #[trigger] storage.block_ends(o, had, blocks, i) by {
                        assert(blocks.take(at) =~= all.take(at));
                        assert(blocks.take(at + 1) =~= blocks);
                        if i < at {
                            assert(blocks.take(i) =~= all.take(at).take(i));
                            assert(blocks.take(i + 1) =~= all.take(at).take(i + 1));
                            assert(earlier.block_ends(o, had, all.take(at), i));
                            lemma_flat_take(all.take(at), i + 1);
                            assert(storage.reach(o) == earlier.reach(o));
                        }
                    }
                }
                moved = Moved { blocks: moved.blocks + 1, bytes: moved.bytes + count };
            },
            None => {
                assert(flat(rest) =~= Seq::<u8>::empty());
                break;
            },
        }
    }
    proof {
        let whole = old(storage)@.ready + flat(all);
        assert(storage@.ready + flat(blocks_in(*outgoing)) =~= whole);
        assert(whole + Seq::<u8>::empty() =~= Seq::<u8>::empty() + whole);
    }
    moved
}

/// Moves all that the connection has received in order to the application, however
/// many blocks that takes.
fn drain(storage: &mut Storage, reader: &mut Reader)
    requires
        old(storage).wf(),
        old(reader).wf(),
        old(reader).spec_used() + old(storage)@.ready.len() <= usize::MAX,
        old(storage).spec_accounts().outstanding + old(storage)@.ready.len() <= usize::MAX,
    ensures
        final(storage).wf(),
        final(reader).wf(),
        final(reader)@ == old(reader)@ + old(storage)@.ready,
        final(reader).spec_used() == old(reader).spec_used() + old(storage)@.ready.len(),
        final(reader).spec_consumed() == old(reader).spec_consumed(),
        final(reader).spec_ended() == old(reader).spec_ended(),
        final(storage)@.ready.len() == 0,
        final(storage)@.ahead == old(storage)@.ahead,
        final(storage).is_tx() == old(storage).is_tx(),
        final(storage).spec_accounts() == held(
            old(storage).spec_accounts(),
            old(storage)@.ready.len() as int,
        ),
{
    let ghost all = reader@ + storage@.ready;
    let ghost used = reader.spec_used() + storage@.ready.len();
    let ghost outstanding = storage.spec_accounts().outstanding + storage@.ready.len();
    while storage.len() > 0
        invariant
            storage.wf(),
            reader.wf(),
            reader@ + storage@.ready == all,
            all == old(reader)@ + old(storage)@.ready,
            used == old(reader).spec_used() + old(storage)@.ready.len(),
            outstanding == old(storage).spec_accounts().outstanding + old(storage)@.ready.len(),
            reader.spec_used() + storage@.ready.len() == used <= usize::MAX,
            storage.spec_accounts().outstanding + storage@.ready.len() == outstanding
                <= usize::MAX,
            reader.spec_consumed() == old(reader).spec_consumed(),
            reader.spec_ended() == old(reader).spec_ended(),
            storage@.ahead == old(storage)@.ahead,
            storage.is_tx() == old(storage).is_tx(),
            storage.spec_accounts() == (Accounts {
                outstanding: storage.spec_accounts().outstanding,
                ..old(storage).spec_accounts()
            }),
        decreases storage@.ready.len(),
    {
        let ghost before = storage@.ready;
        let ghost had = reader@;
        let moved = deliver(storage, reader);
        proof {
            let n = moved.bytes as int;
            assert(had + before.take(n) + before.skip(n) =~= had + before);
        }
    }
    assert(reader@ =~= all);
}

/// What the worker tells the application of a connection whose place a new one has
/// taken, and which number the first one of the new connection has to follow.
#[derive(Clone, Copy, Debug, PartialEq, Eq, Structural)]
pub struct Superseded {
    pub signals: Signals,
    pub after: u32,
}

/// Ends a connection that has closed in both directions, because a new one takes its
/// place. The application still gets all that was received, and then the end of the
/// stream; it loses nothing. `next` is the number that the connection would have
/// sent next.
pub fn supersede(
    connection: &mut Connection,
    storage: &mut Storage,
    reader: &mut Reader,
    next: u32,
) -> (r: Superseded)
    requires
        old(connection).wf(),
        old(storage).wf(),
        old(reader).wf(),
        old(reader).spec_used() + old(storage)@.ready.len() <= usize::MAX,
        old(storage).spec_accounts().outstanding + old(storage)@.ready.len() <= usize::MAX,
    ensures
        final(connection).wf(),
        *final(connection) == (Connection { closed_normally: true, ..*old(connection) }),
        r == (Superseded {
            signals: Signals {
                eof: !old(connection).handed_over && !old(connection).waiting,
                reset: false,
            },
            after: next,
        }),
        final(storage).wf(),
        final(reader).wf(),
        final(reader).spec_ended() == old(reader).spec_ended(),
        final(reader).spec_consumed() == old(reader).spec_consumed(),
        old(connection).handed_over ==> *final(storage) == *old(storage) && *final(reader) == *old(
            reader),
        !old(connection).handed_over ==> {
            &&& final(reader)@ == old(reader)@ + old(storage)@.ready
            &&& final(reader).spec_used() == old(reader).spec_used() + old(storage)@.ready.len()
            &&& final(storage)@.ready.len() == 0
            &&& final(storage)@.ahead == old(storage)@.ahead
        },
{
    connection.closed_normally = true;
    if !connection.handed_over {
        drain(storage, reader);
    }
    Superseded {
        signals: Signals { eof: !connection.handed_over && !connection.waiting, reset: false },
        after: next,
    }
}

/// Takes notice of what the application has consumed: it no longer holds it.
/// Returns how many bytes that is.
pub fn refresh(reader: &mut Reader, storage: &mut Storage) -> (r: usize)
    requires
        old(reader).wf(),
        old(storage).wf(),
        !old(storage).is_tx(),
        old(reader).spec_consumed() <= old(storage).spec_accounts().outstanding,
    ensures
        final(reader).wf(),
        final(storage).wf(),
        r == old(reader).spec_consumed(),
        final(reader).spec_consumed() == 0,
        final(reader)@ == old(reader)@,
        final(reader).spec_used() == old(reader).spec_used(),
        final(reader).spec_ended() == old(reader).spec_ended(),
        final(storage)@ == old(storage)@,
        final(storage).position() == old(storage).position(),
        !final(storage).is_tx(),
        final(storage).spec_accounts() == held(old(storage).spec_accounts(), -r),
{
    let consumed: usize = reader.take_consumed();
    storage.settle(consumed);
    consumed
}

/// Takes notice of what the peer has acknowledged: it no longer counts among the bytes
/// that the application has handed over. Returns how many bytes that is.
pub fn acknowledge(storage: &mut Storage, used: &mut usize) -> (r: usize)
    requires
        old(storage).wf(),
        old(storage).spec_accounts().released <= *old(used),
    ensures
        final(storage).wf(),
        r == old(storage).spec_accounts().released,
        *final(used) == *old(used) - r,
        final(storage).spec_accounts() == (Accounts { released: 0, ..old(storage).spec_accounts() }),
        final(storage)@ == old(storage)@,
        final(storage).same_blocks(*old(storage)),
        final(storage).position() == old(storage).position(),
        final(storage).is_tx() == old(storage).is_tx(),
{
    let released: usize = storage.take_released();
    *used = *used - released;
    released
}

/// However a stream is cut into parts that move on, and whatever arrives meanwhile,
/// it leaves in order, none of it twice and none left out: what has left, followed
/// by what is still inside, is what was inside at first, followed by all that
/// arrived. The bytes that the application reads, those that `deliver` and `accept`
/// move, those of a transfer whose socket accepts writes in part, and the datagrams
/// of an association in both directions pass in such steps.
pub proof fn law_streams_keep_their_order<A>(
    inside: Seq<Seq<A>>,
    arrived: Seq<Seq<A>>,
    left: Seq<Seq<A>>,
)
    requires
        inside.len() == arrived.len() + 1,
        left.len() == arrived.len(),
        forall|i: int|
            0 <= i < arrived.len() ==> #[trigger] passes(
                inside[i],
                arrived[i],
                left[i],
                inside[i + 1],
            ),
    ensures
        flat(left) + inside.last() == inside[0] + flat(arrived),
    decreases arrived.len(),
{
    if arrived.len() > 0 {
        let n = arrived.len() - 1;
        assert forall|i: int| 0 <= i < n implies #[trigger] passes(
            inside.drop_last()[i],
            arrived.drop_last()[i],
            left.drop_last()[i],
            inside.drop_last()[i + 1],
        ) by {
            assert(passes(inside[i], arrived[i], left[i], inside[i + 1]));
        }
        law_streams_keep_their_order(
            inside.drop_last(),
            arrived.drop_last(),
            left.drop_last(),
        );
        assert(passes(inside[n], arrived[n], left[n], inside[n + 1]));
        let (a, u) = (flat(left.drop_last()), inside[n]);
        let (first, came) = (inside[0], flat(arrived.drop_last()));
        assert(inside.drop_last().last() == u);
        assert(a + u == first + came);
        assert(a + left[n] + inside[n + 1] =~= a + (left[n] + inside[n + 1]));
        assert(a + (u + arrived[n]) =~= (a + u) + arrived[n]);
        assert((first + came) + arrived[n] =~= first + (came + arrived[n]));
    } else {
        assert(flat(left) + inside.last() =~= inside[0] + flat(arrived));
    }
}

/// Bytes that the application gets or gives count as held, one for one, and nothing else of
/// the accounts changes.
pub proof fn law_held_bytes_are_counted(accounts: Accounts, bytes: int)
    requires
        0 <= accounts.outstanding + bytes <= usize::MAX,
    ensures
        held(accounts, bytes).outstanding - accounts.outstanding == bytes,
        held(accounts, bytes).target == accounts.target,
        held(accounts, bytes).released == accounts.released,
        held(held(accounts, bytes), -bytes) == accounts,
{
}

} // verus!
