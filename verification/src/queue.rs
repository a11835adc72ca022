//! First-in, first-out queues of blocks, as the `crossbeam-queue` crate gives
//! them. They are used through exclusive references only, so that a queue's
//! contents are those of its value.
use crate::shared::contents;
use bytes::Bytes;
use crossbeam_queue::SegQueue;
use vstd::prelude::*;

verus! {

/// `crossbeam_queue::SegQueue`: an unbounded queue.
#[verifier::external_type_specification]
#[verifier::external_body]
#[verifier::reject_recursive_types(T)]
pub struct ExSegQueue<T>(crossbeam_queue::SegQueue<T>);

/// The bytes of the views in a queue, oldest first.
pub uninterp spec fn blocks_in(queue: SegQueue<Bytes>) -> Seq<Seq<u8>>;

/// The free blocks in a queue, oldest first.
pub uninterp spec fn free_in(queue: SegQueue<Vec<u8>>) -> Seq<Seq<u8>>;

/// `SegQueue::new`: an empty queue of views.
#[verifier::external_body]
pub(crate) fn new_blocks() -> (r: SegQueue<Bytes>)
    ensures
        blocks_in(r).len() == 0,
{
    SegQueue::new()
}

/// `SegQueue::push`: the view joins the end.
#[verifier::external_body]
pub(crate) fn push_block(queue: &mut SegQueue<Bytes>, bytes: Bytes)
    ensures
        blocks_in(*final(queue)) == blocks_in(*old(queue)).push(contents(bytes)),
{
    queue.push(bytes);
}

/// `SegQueue::pop`: the oldest view leaves, if there is one.
#[verifier::external_body]
pub(crate) fn pop_block(queue: &mut SegQueue<Bytes>) -> (r: Option<Bytes>)
    ensures
        r is Some == (blocks_in(*old(queue)).len() > 0),
        r matches Some(bytes) ==> contents(bytes) == blocks_in(*old(queue))[0] && blocks_in(
            *final(queue),
        ) == blocks_in(*old(queue)).skip(1),
        r is None ==> blocks_in(*final(queue)) == blocks_in(*old(queue)),
{
    queue.pop()
}

/// `SegQueue::new`: an empty queue of free blocks.
#[verifier::external_body]
pub(crate) fn new_free() -> (r: SegQueue<Vec<u8>>)
    ensures
        free_in(r).len() == 0,
{
    SegQueue::new()
}

/// `SegQueue::push`: the free block joins the end.
#[verifier::external_body]
pub(crate) fn push_free(queue: &mut SegQueue<Vec<u8>>, bytes: Vec<u8>)
    ensures
        free_in(*final(queue)) == free_in(*old(queue)).push(bytes@),
{
    queue.push(bytes);
}

/// `SegQueue::pop`: the oldest free block leaves, if there is one.
#[verifier::external_body]
pub(crate) fn pop_free(queue: &mut SegQueue<Vec<u8>>) -> (r: Option<Vec<u8>>)
    ensures
        r is Some == (free_in(*old(queue)).len() > 0),
        r matches Some(bytes) ==> bytes@ == free_in(*old(queue))[0] && free_in(*final(queue))
            == free_in(*old(queue)).skip(1),
        r is None ==> free_in(*final(queue)) == free_in(*old(queue)),
{
    queue.pop()
}

/// Some pieces, one after another.
pub open spec fn flat<A>(pieces: Seq<Seq<A>>) -> Seq<A>
    decreases pieces.len(),
{
    if pieces.len() == 0 {
        Seq::empty()
    } else {
        flat(pieces.drop_last()) + pieces.last()
    }
}

/// A piece joins the end.
pub proof fn lemma_flat_push<A>(pieces: Seq<Seq<A>>, piece: Seq<A>)
    ensures
        flat(pieces.push(piece)) == flat(pieces) + piece,
{
    assert(pieces.push(piece).drop_last() =~= pieces);
}

/// Some of the pieces are no longer than all of them.
pub proof fn lemma_flat_take<A>(pieces: Seq<Seq<A>>, n: int)
    requires
        0 <= n <= pieces.len(),
    ensures
        flat(pieces.take(n)).len() <= flat(pieces).len(),
    decreases pieces.len() - n,
{
    if n < pieces.len() {
        lemma_flat_take(pieces, n + 1);
        assert(pieces.take(n + 1).drop_last() =~= pieces.take(n));
    } else {
        assert(pieces.take(n) =~= pieces);
    }
}

/// Pieces start with the first.
pub proof fn lemma_flat_front<A>(pieces: Seq<Seq<A>>)
    requires
        pieces.len() > 0,
    ensures
        flat(pieces) == pieces[0] + flat(pieces.skip(1)),
    decreases pieces.len(),
{
    if pieces.len() == 1 {
        assert(pieces.drop_last() =~= Seq::<Seq<A>>::empty());
        assert(pieces.skip(1) =~= Seq::<Seq<A>>::empty());
        assert(flat(pieces) =~= pieces[0] + flat(pieces.skip(1)));
    } else {
        lemma_flat_front(pieces.drop_last());
        assert(pieces.drop_last().skip(1) =~= pieces.skip(1).drop_last());
        assert(flat(pieces) =~= pieces[0] + flat(pieces.skip(1)));
    }
}

} // verus!
