//! TCP payload ownership. The worker owns the index; immutable blocks move to and
//! from the application without a copy of their payload.
use crate::blocks::{reach_after_write, written, Blocks};
use crate::queue::flat;
use crate::shared;
use crate::shared::{as_slice, contents};
use bytes::Bytes;
use vstd::prelude::*;
use vstd::slice::{slice_subrange, slice_to_vec};

verus! {

/// The parts of a segment that one write to the device may gather.
pub const MAX_PARTS: usize = 64;

/// One direction of a connection, with its accounts: `target` is its allowance;
/// of `outstanding` bytes the application still holds views, and `released` counts
/// those that the peer has acknowledged.
pub struct Storage {
    blocks: Blocks,
    head: usize,
    length: usize,
    scratch: Bytes,
    tx: bool,
    accounts: Accounts,
}

/// What a direction may hold and what it holds beside its own bytes.
#[derive(Clone, Copy, Debug, PartialEq, Eq, Structural)]
pub struct Accounts {
    pub target: usize,
    pub outstanding: usize,
    pub released: usize,
}

impl Accounts {
    /// The accounts after the peer has acknowledged `count` bytes.
    pub open spec fn acknowledged(self, count: int) -> Accounts {
        Accounts {
            outstanding: (self.outstanding - count) as usize,
            released: (self.released + count) as usize,
            ..self
        }
    }
}

/// The mathematical content of a direction: the bytes that are in order, and those
/// that came ahead of them, each at its distance from the end of the former.
pub struct StorageView {
    pub ready: Seq<u8>,
    pub ahead: Map<int, u8>,
}

impl View for Storage {
    type V = StorageView;

    closed spec fn view(&self) -> StorageView {
        StorageView {
            ready: Seq::new(self.length as nat, |i: int| self.blocks@[self.head + i]),
            ahead: Map::new(
                |d: int| d >= 0 && self.blocks@.contains_key(self.head + self.length + d),
                |d: int| self.blocks@[self.head + self.length + d],
            ),
        }
    }
}

/// The bytes ahead, after `data` has been written at a distance.
pub open spec fn written_ahead(ahead: Map<int, u8>, offset: int, data: Seq<u8>) -> Map<int, u8> {
    written(ahead, offset, data)
}

/// The bytes ahead, after the first `count` positions have become ready.
pub open spec fn shifted(ahead: Map<int, u8>, count: int) -> Map<int, u8> {
    Map::new(|d: int| d >= 0 && ahead.contains_key(d + count), |d: int| ahead[d + count])
}

/// The first `count` bytes ahead, which are all there.
pub open spec fn front(ahead: Map<int, u8>, count: int) -> Seq<u8> {
    Seq::new(count as nat, |i: int| ahead[i])
}

/// The smaller of two numbers.
pub open spec fn least(a: int, b: int) -> int {
    if a < b {
        a
    } else {
        b
    }
}

/// `a - b`, or zero.
pub open spec fn minus(a: int, b: int) -> int {
    if a > b {
        a - b
    } else {
        0
    }
}

/// What a direction may still take in, where so many bytes are ready.
pub open spec fn room(accounts: Accounts, tx: bool, ready: int) -> int {
    minus(
        accounts.target as int,
        accounts.outstanding + (if tx {
            0
        } else {
            ready
        }),
    )
}

fn least_of(a: usize, b: usize) -> (r: usize)
    ensures
        r == least(a as int, b as int),
{
    if a < b {
        a
    } else {
        b
    }
}

/// The bytes of some views, one after another.
pub open spec fn joined(parts: Seq<Bytes>) -> Seq<u8>
    decreases parts.len(),
{
    if parts.len() == 0 {
        Seq::empty()
    } else {
        joined(parts.drop_last()) + contents(parts.last())
    }
}

impl Storage {
    /// All that is ready has its bytes, and nothing is kept before it.
    pub closed spec fn wf(self) -> bool {
        &&& self.blocks.wf()
        &&& self.head + self.length <= usize::MAX
        &&& forall|p: int|
            self.head <= p < self.head + self.length ==> #[trigger] self.blocks@.contains_key(p)
        &&& forall|p: int| #[trigger] self.blocks@.contains_key(p) ==> self.head <= p
    }

    /// How many bytes have become ready so far.
    pub closed spec fn position(self) -> int {
        self.head + self.length
    }

    /// The accounts.
    pub closed spec fn spec_accounts(self) -> Accounts {
        self.accounts
    }

    /// Whether this is the direction to the peer.
    pub closed spec fn is_tx(self) -> bool {
        self.tx
    }

    /// Where the block that holds a byte ends. Both are counted from the first ready
    /// byte; those ahead follow the ready ones. A place without a byte is its own
    /// end.
    pub closed spec fn reach(self, offset: int) -> int {
        self.blocks.reach(self.head + offset) - self.head
    }

    /// The blocks of two states end at the same places.
    pub open spec fn same_blocks(self, other: Storage) -> bool {
        forall|o: int| 0 <= o ==> #[trigger] self.reach(o) == other.reach(o)
    }

    /// The blocks after a view of `len` bytes was put at a place: it is one block, and
    /// cuts off what it overlaps of the others.
    pub open spec fn wrote_block(self, had: Storage, at: int, len: int) -> bool {
        forall|o: int|
            0 <= o ==> #[trigger] self.reach(o) == reach_after_write(
                had.reach(o),
                o,
                at,
                at + len,
            )
    }

    /// The blocks after `count` bytes were dropped from the front: only the first
    /// block that is left can be shorter than it was.
    pub open spec fn dropped_front(self, had: Storage, count: int) -> bool {
        forall|o: int| 0 <= o ==> #[trigger] self.reach(o) == had.reach(o + count) - count
    }

    /// The block that holds a byte is the piece with this number of those that were
    /// put behind `had` ready bytes.
    pub open spec fn block_ends(self, o: int, had: int, pieces: Seq<Seq<u8>>, i: int) -> bool {
        self.reach(o) == had + flat(pieces.take(i + 1)).len()
    }

    /// Each of some pieces that were put behind `had` ready bytes is one block.
    pub open spec fn appended(self, had: int, pieces: Seq<Seq<u8>>) -> bool {
        forall|i: int, o: int|
            0 <= i < pieces.len() && had + flat(pieces.take(i)).len() <= o < had + flat(
                pieces.take(i + 1),
            ).len() ==> #[trigger] self.block_ends(o, had, pieces, i)
    }

    /// An empty direction with an allowance.
    pub fn new(target: usize, tx: bool) -> (r: Storage)
        ensures
            r.wf(),
            r@.ready == Seq::<u8>::empty(),
            r@.ahead == Map::<int, u8>::empty(),
            r.is_tx() == tx,
            r.position() == 0,
            r.spec_accounts() == (Accounts { target, outstanding: 0, released: 0 }),
            forall|o: int| #[trigger] r.reach(o) == o,
    {
        let r = Storage {
            blocks: Blocks::new(),
            head: 0,
            length: 0,
            scratch: shared::from_vec(Vec::new()),
            tx,
            accounts: Accounts { target, outstanding: 0, released: 0 },
        };
        assert(r@.ready =~= Seq::<u8>::empty());
        assert(r@.ahead =~= Map::<int, u8>::empty());
        r
    }

    pub fn capacity(&self) -> (r: usize)
        ensures
            r == self.spec_accounts().target,
    {
        self.accounts.target
    }

    pub fn accounts(&self) -> (r: Accounts)
        ensures
            r == self.spec_accounts(),
    {
        self.accounts
    }

    /// Changes the allowance.
    pub fn set_target(&mut self, target: usize)
        requires
            old(self).wf(),
        ensures
            final(self).wf(),
            final(self).spec_accounts() == (Accounts { target, ..old(self).spec_accounts() }),
            final(self)@ == old(self)@,
            final(self).same_blocks(*old(self)),
            final(self).position() == old(self).position(),
            final(self).is_tx() == old(self).is_tx(),
    {
        let ghost before = *self;
        self.accounts.target = target;
        assert(self@.ready =~= before@.ready);
        assert(self@.ahead =~= before@.ahead);
    }

    /// Counts bytes of which the application gets, or has promised, a view.
    pub fn hold(&mut self, count: usize)
        requires
            old(self).wf(),
            old(self).spec_accounts().outstanding + count <= usize::MAX,
        ensures
            final(self).wf(),
            final(self).spec_accounts() == (Accounts {
                outstanding: (old(self).spec_accounts().outstanding + count) as usize,
                ..old(self).spec_accounts()
            }),
            final(self)@ == old(self)@,
            final(self).same_blocks(*old(self)),
            final(self).position() == old(self).position(),
            final(self).is_tx() == old(self).is_tx(),
    {
        let ghost before = *self;
        self.accounts.outstanding = self.accounts.outstanding + count;
        assert(self@.ready =~= before@.ready);
        assert(self@.ahead =~= before@.ahead);
    }

    /// Counts bytes whose views the application has given up, or never used.
    pub fn settle(&mut self, count: usize)
        requires
            old(self).wf(),
            count <= old(self).spec_accounts().outstanding,
        ensures
            final(self).wf(),
            final(self).spec_accounts() == (Accounts {
                outstanding: (old(self).spec_accounts().outstanding - count) as usize,
                ..old(self).spec_accounts()
            }),
            final(self)@ == old(self)@,
            final(self).same_blocks(*old(self)),
            final(self).position() == old(self).position(),
            final(self).is_tx() == old(self).is_tx(),
    {
        let ghost before = *self;
        self.accounts.outstanding = self.accounts.outstanding - count;
        assert(self@.ready =~= before@.ready);
        assert(self@.ahead =~= before@.ahead);
    }

    /// Takes the count of bytes that the peer has acknowledged since it was last taken.
    pub fn take_released(&mut self) -> (r: usize)
        requires
            old(self).wf(),
        ensures
            final(self).wf(),
            r == old(self).spec_accounts().released,
            final(self).spec_accounts() == (Accounts { released: 0, ..old(self).spec_accounts() }),
            final(self)@ == old(self)@,
            final(self).same_blocks(*old(self)),
            final(self).position() == old(self).position(),
            final(self).is_tx() == old(self).is_tx(),
    {
        let ghost before = *self;
        let released: usize = self.accounts.released;
        self.accounts.released = 0;
        assert(self@.ready =~= before@.ready);
        assert(self@.ahead =~= before@.ahead);
        released
    }

    pub fn len(&self) -> (r: usize)
        requires
            self.wf(),
        ensures
            r == self@.ready.len(),
    {
        self.length
    }

    /// What may still be taken in: what the allowance leaves beside the bytes that
    /// wait and those that the application holds. The bytes to the peer are held
    /// until they are acknowledged, so they count once.
    pub fn window(&self) -> (r: usize)
        requires
            self.wf(),
        ensures
            r == room(self.spec_accounts(), self.is_tx(), self@.ready.len() as int),
    {
        let free: usize = self.accounts.target.saturating_sub(self.accounts.outstanding);
        if self.tx {
            free
        } else {
            free.saturating_sub(self.length)
        }
    }

    /// The shift of the window that the peer is told.
    pub fn window_shift(&self) -> (r: Option<u8>)
        ensures
            r == Some(7u8),
    {
        Some(7)
    }

    /// Appends a view to what is ready, where nothing came ahead. Returns its
    /// length.
    pub fn push(&mut self, bytes: Bytes) -> (r: usize)
        requires
            old(self).wf(),
            forall|d: int|
                0 <= d < contents(bytes).len() ==> !(#[trigger] old(self)@.ahead.contains_key(d)),
            old(self).position() + contents(bytes).len() <= usize::MAX,
        ensures
            final(self).wf(),
            r == contents(bytes).len(),
            final(self)@.ready == old(self)@.ready + contents(bytes),
            final(self)@.ahead == shifted(old(self)@.ahead, contents(bytes).len() as int),
            final(self).position() == old(self).position() + r,
            final(self).same_accounts(*old(self)),
            final(self).wrote_block(*old(self), old(self)@.ready.len() as int, r as int),
            forall|o: int|
                0 <= o < old(self)@.ready.len() ==> #[trigger] final(self).reach(o) == old(
                    self).reach(o),
    {
        let ghost before = *self;
        let len: usize = bytes.len();
        let end: usize = self.head + self.length;
        self.blocks.insert(end, bytes);
        self.length = self.length + len;
        proof {
            assert forall|o: int| 0 <= o < before.length implies #[trigger] self.reach(o)
                == before.reach(o) by {
                before.blocks.lemma_reach(before.head + o);
                if len > 0 && before.reach(o) > before.length {
                    assert(before.blocks@.contains_key(end as int));
                    assert(before@.ahead.contains_key(0));
                }
            }
            assert(self@.ready =~= before@.ready + contents(bytes));
            assert(self@.ahead =~= shifted(before@.ahead, len as int));
        }
        len
    }

    /// The accounts and the direction of two states agree.
    pub open spec fn same_accounts(self, other: Storage) -> bool {
        &&& self.is_tx() == other.is_tx()
        &&& self.spec_accounts() == other.spec_accounts()
    }

    /// Takes the first block of what is ready, or the part of it that is ready.
    pub fn take(&mut self) -> (r: Option<Bytes>)
        requires
            old(self).wf(),
        ensures
            final(self).wf(),
            r is Some == (old(self)@.ready.len() > 0),
            r matches Some(bytes) ==> {
                let count = least(old(self).reach(0), old(self)@.ready.len() as int);
                &&& 0 < count
                &&& contents(bytes) == old(self)@.ready.take(count)
                &&& final(self)@.ready == old(self)@.ready.skip(count)
                &&& final(self).dropped_front(*old(self), count)
            },
            r is None ==> final(self)@.ready == old(self)@.ready && final(self).same_blocks(
                *old(self),
            ),
            final(self)@.ahead == old(self)@.ahead,
            final(self).position() == old(self).position(),
            final(self).same_accounts(*old(self)),
    {
        if self.length == 0 {
            return None;
        }
        let ghost before = *self;
        proof {
            assert(self.blocks@.contains_key(self.head as int));
            self.blocks.lemma_reach(self.head as int);
        }
        let bytes = self.blocks.view_part(self.head, self.length);
        let count: usize = bytes.len();
        self.blocks.clear_range(self.head, self.head + count);
        self.head = self.head + count;
        self.length = self.length - count;
        proof {
            assert forall|i: int| 0 <= i < count implies #[trigger] contents(bytes)[i]
                == before@.ready[i] by {
                assert(before.blocks@.contains_key(before.head + i));
            }
            assert(contents(bytes) =~= before@.ready.take(count as int));
            assert(self@.ready =~= before@.ready.skip(count as int));
            assert(self@.ahead =~= before@.ahead);
        }
        Some(bytes)
    }

    /// The ready bytes from `offset` on that stand in one block, at most `size`.
    pub fn get_allocated(&self, offset: usize, size: usize) -> (r: &[u8])
        requires
            self.wf(),
        ensures
            r@ == self@.part(offset as int, self.part_len(offset as int, size as int)),
            r@.len() == self.part_len(offset as int, size as int),
    {
        if offset >= self.length {
            let none: &[u8] = &[];
            assert(none@ =~= self@.part(offset as int, 0));
            return none;
        }
        let at: usize = self.head + offset;
        let limit: usize = least_of(size, self.length - offset);
        proof {
            assert(self.blocks@.contains_key(at as int));
            self.blocks.lemma_reach(at as int);
        }
        let r = self.blocks.part(at, limit);
        proof {
            assert forall|i: int| 0 <= i < r@.len() implies #[trigger] r@[i]
                == self@.ready[offset + i] by {
                assert(self.blocks@.contains_key(at + i));
            }
            assert(r@ =~= self@.part(offset as int, r@.len() as int));
        }
        r
    }

    /// How many ready bytes stand in one block from `offset` on, at most `size`.
    pub open spec fn part_len(self, offset: int, size: int) -> int {
        if offset >= self@.ready.len() {
            0
        } else {
            least(self.reach(offset) - offset, least(size, self@.ready.len() - offset))
        }
    }

    /// A ready byte is in a block.
    proof fn lemma_part_len(self, offset: int, size: int)
        requires
            self.wf(),
            0 <= offset,
            0 <= size,
        ensures
            0 <= self.part_len(offset, size) <= size,
            offset < self@.ready.len() ==> offset + self.part_len(offset, size)
                <= self@.ready.len(),
            offset < self@.ready.len() && size > 0 ==> self.part_len(offset, size) > 0,
    {
        if offset < self@.ready.len() {
            assert(self.blocks@.contains_key(self.head + offset));
            self.blocks.lemma_reach(self.head + offset);
        }
    }

    /// Where a walk over at most `parts` blocks from `position` to `end` arrives.
    pub open spec fn walk(self, position: int, end: int, parts: int) -> int
        decreases parts,
    {
        if parts <= 0 || position >= end {
            position
        } else {
            self.walk(position + self.part_len(position, end - position), end, parts - 1)
        }
    }

    /// A view is what one block holds of the ready bytes from `start` to `end`: the
    /// part that the walk over them meets after `index` others.
    pub open spec fn is_part(self, view: Bytes, start: int, end: int, index: int) -> bool {
        let from = self.walk(start, end, index);
        &&& from < end
        &&& contents(view).len() == self.part_len(from, end - from)
        &&& contents(view) == self@.ready.subrange(from, from + contents(view).len())
        &&& self.walk(start, end, index + 1) == from + contents(view).len()
    }

    /// How many blocks hold the ready bytes from `position` to `end`.
    pub open spec fn parts(self, position: int, end: int) -> int
        decreases end - position,
    {
        if position >= end || self.part_len(position, end - position) <= 0 {
            0
        } else {
            1 + self.parts(position + self.part_len(position, end - position), end)
        }
    }

    /// How much of `size` bytes from `offset` on one write can gather: no more
    /// than is ready, and no more blocks than a write takes.
    pub fn segment_len(&self, offset: usize, size: usize) -> (r: usize)
        requires
            self.wf(),
            offset + size <= usize::MAX,
        ensures
            r == self.walk(
                offset as int,
                offset + least(size as int, minus(self@.ready.len() as int, offset as int)),
                MAX_PARTS as int,
            ) - offset,
            r <= least(size as int, minus(self@.ready.len() as int, offset as int)),
    {
        let wanted: usize = least_of(size, self.length.saturating_sub(offset));
        let end: usize = offset + wanted;
        let mut position: usize = offset;
        let mut parts: usize = MAX_PARTS;
        while parts > 0 && position < end
            invariant
                self.wf(),
                parts <= MAX_PARTS,
                offset <= position <= end,
                wanted == end - offset,
                end == offset || end <= self@.ready.len(),
                self.walk(offset as int, end as int, MAX_PARTS as int) == self.walk(
                    position as int,
                    end as int,
                    parts as int,
                ),
            decreases parts,
        {
            proof {
                self.lemma_part_len(position as int, end - position);
            }
            let part = self.get_allocated(position, end - position);
            position = position + part.len();
            parts = parts - 1;
        }
        position - offset
    }

    /// Views of the ready bytes in a range, in order.
    pub fn segments(&self, start: usize, end: usize) -> (r: Vec<Bytes>)
        requires
            self.wf(),
            start <= end <= self@.ready.len(),
        ensures
            r@.len() == self.parts(start as int, end as int),
            forall|i: int|
                0 <= i < r@.len() ==> self.is_part(#[trigger] r@[i], start as int, end as int, i),
            joined(r@) == self@.ready.subrange(start as int, end as int),
    {
        let mut position: usize = start;
        let mut result: Vec<Bytes> = Vec::new();
        assert(joined(result@) =~= self@.ready.subrange(start as int, start as int));
        while position < end
            invariant
                self.wf(),
                start <= position <= end <= self@.ready.len(),
                joined(result@) == self@.ready.subrange(start as int, position as int),
                self.walk(start as int, end as int, result@.len() as int) == position,
                result@.len() + self.parts(position as int, end as int) == self.parts(
                    start as int,
                    end as int,
                ),
                forall|i: int|
                    0 <= i < result@.len() ==> self.is_part(
                        #[trigger] result@[i],
                        start as int,
                        end as int,
                        i,
                    ),
            decreases end - position,
        {
            let at: usize = self.head + position;
            proof {
                self.lemma_part_len(position as int, end - position);
                self.lemma_walk_step(start as int, end as int, result@.len() as int);
                assert(self.blocks@.contains_key(at as int));
                self.blocks.lemma_reach(at as int);
            }
            let bytes = self.blocks.view_part(at, end - position);
            let count: usize = bytes.len();
            let ghost before = result@;
            result.push(bytes);
            proof {
                assert(result@.drop_last() =~= before);
                assert forall|i: int| 0 <= i < count implies #[trigger] contents(bytes)[i]
                    == self@.ready[position + i] by {
                    assert(self.blocks@.contains_key(at + i));
                }
                assert(joined(result@) =~= self@.ready.subrange(
                    start as int,
                    position as int + count,
                ));
                assert(contents(bytes) =~= self@.ready.subrange(
                    position as int,
                    position as int + count,
                ));
                assert(self.is_part(bytes, start as int, end as int, before.len() as int));
                assert forall|i: int| 0 <= i < result@.len() implies self.is_part(
                    #[trigger] result@[i],
                    start as int,
                    end as int,
                    i,
                ) by {
                    if i < before.len() {
                        assert(result@[i] == before[i]);
                    }
                }
            }
            position = position + count;
        }
        result
    }

    /// How many views `segments` gives.
    pub fn segment_count(&self, start: usize, end: usize) -> (r: usize)
        requires
            self.wf(),
            start <= end <= self@.ready.len(),
        ensures
            r == self.parts(start as int, end as int),
            r <= end - start,
            r == 0 <==> start == end,
            self.walk(start as int, end as int, r as int) == end,
            r > 0 ==> self.walk(start as int, end as int, r - 1) < end,
    {
        let mut position: usize = start;
        let mut count: usize = 0;
        while position < end
            invariant
                self.wf(),
                start <= position <= end <= self@.ready.len(),
                count <= position - start,
                count == 0 <==> position == start,
                count + self.parts(position as int, end as int) == self.parts(
                    start as int,
                    end as int,
                ),
                self.walk(start as int, end as int, count as int) == position,
                count > 0 ==> self.walk(start as int, end as int, count - 1) < end,
            decreases end - position,
        {
            proof {
                self.lemma_part_len(position as int, end - position);
                self.lemma_walk_step(start as int, end as int, count as int);
            }
            let part = self.get_allocated(position, end - position);
            position = position + part.len();
            count = count + 1;
        }
        count
    }

    /// A walk over one more block goes on where the walk before it stopped.
    proof fn lemma_walk_step(self, position: int, end: int, parts: int)
        requires
            0 <= parts,
        ensures
            self.walk(position, end, parts) < end ==> self.walk(position, end, parts + 1)
                == self.walk(position, end, parts) + self.part_len(
                self.walk(position, end, parts),
                end - self.walk(position, end, parts),
            ),
        decreases parts,
    {
        reveal_with_fuel(Storage::walk, 2);
        if parts > 0 && position < end {
            self.lemma_walk_step(
                position + self.part_len(position, end - position),
                end,
                parts - 1,
            );
        }
    }

    /// The ready bytes from `offset` on, at most `size`, in one piece. Only bytes
    /// that cross a block boundary are gathered.
    pub fn get_segment(&mut self, offset: usize, size: usize) -> (r: &[u8])
        requires
            old(self).wf(),
        ensures
            r@ == old(self)@.part(
                offset as int,
                least(size as int, minus(old(self)@.ready.len() as int, offset as int)),
            ),
            final(self).wf(),
            final(self)@ == old(self)@,
            final(self).same_blocks(*old(self)),
            final(self).position() == old(self).position(),
            final(self).same_accounts(*old(self)),
    {
        let wanted: usize = least_of(size, self.length.saturating_sub(offset));
        if self.get_allocated(offset, wanted).len() < wanted {
            let gathered = self.gather(offset, wanted);
            self.scratch = shared::from_vec(gathered);
            return as_slice(&self.scratch);
        }
        self.get_allocated(offset, wanted)
    }

    /// Copies ready bytes, across blocks.
    fn gather(&self, offset: usize, count: usize) -> (r: Vec<u8>)
        requires
            self.wf(),
            offset + count <= self@.ready.len(),
        ensures
            r@ == self@.part(offset as int, count as int),
    {
        let mut out: Vec<u8> = Vec::with_capacity(count);
        assert(out@ =~= self@.part(offset as int, 0));
        while out.len() < count
            invariant
                self.wf(),
                offset + count <= self@.ready.len(),
                out@.len() <= count,
                out@ == self@.part(offset as int, out@.len() as int),
            decreases count - out@.len(),
        {
            let n: usize = out.len();
            proof {
                self.lemma_part_len(offset + n, count - n);
            }
            let part = self.get_allocated(offset + n, count - n);
            out.extend_from_slice(part);
            assert(out@ =~= self@.part(offset as int, out@.len() as int));
        }
        out
    }

    /// Copies ready bytes from `offset` on, at most `size`.
    pub fn read_allocated(&self, offset: usize, size: usize) -> (r: Vec<u8>)
        requires
            self.wf(),
        ensures
            r@ == self@.part(
                offset as int,
                least(size as int, minus(self@.ready.len() as int, offset as int)),
            ),
    {
        if offset >= self.length {
            let r: Vec<u8> = Vec::new();
            assert(r@ =~= self@.part(offset as int, 0));
            return r;
        }
        let wanted: usize = least_of(size, self.length - offset);
        self.gather(offset, wanted)
    }

    /// Writes a view ahead of what is ready, at a distance. What it overlaps is
    /// replaced. The window was checked when it was told to the peer; a lowered
    /// allowance must still accept what was in flight.
    pub fn write_view(&mut self, offset: usize, bytes: Bytes) -> (r: usize)
        requires
            old(self).wf(),
            old(self).position() + offset + contents(bytes).len() <= usize::MAX,
        ensures
            final(self).wf(),
            r == contents(bytes).len(),
            final(self)@.ready == old(self)@.ready,
            final(self)@.ahead == written_ahead(
                old(self)@.ahead,
                offset as int,
                contents(bytes),
            ),
            final(self).position() == old(self).position(),
            final(self).same_accounts(*old(self)),
            final(self).wrote_block(*old(self), old(self)@.ready.len() + offset, r as int),
    {
        let ghost before = *self;
        let len: usize = bytes.len();
        self.blocks.insert(self.head + self.length + offset, bytes);
        proof {
            assert(self@.ready =~= before@.ready);
            assert(self@.ahead =~= written_ahead(before@.ahead, offset as int, contents(bytes)));
        }
        len
    }

    /// `write_view` with a copy of the bytes.
    pub fn write_unallocated(&mut self, offset: usize, data: &[u8]) -> (r: usize)
        requires
            old(self).wf(),
            old(self).position() + offset + data@.len() <= usize::MAX,
        ensures
            final(self).wf(),
            r == data@.len(),
            final(self)@.ready == old(self)@.ready,
            final(self)@.ahead == written_ahead(old(self)@.ahead, offset as int, data@),
            final(self).position() == old(self).position(),
            final(self).same_accounts(*old(self)),
            final(self).wrote_block(*old(self), old(self)@.ready.len() + offset, r as int),
    {
        self.write_view(offset, shared::from_vec(slice_to_vec(data)))
    }

    /// Makes the first `count` positions ahead ready. They have to be there.
    pub fn enqueue_unallocated(&mut self, count: usize)
        requires
            old(self).wf(),
            forall|d: int| 0 <= d < count ==> #[trigger] old(self)@.ahead.contains_key(d),
            old(self).position() + count <= usize::MAX,
        ensures
            final(self).wf(),
            final(self)@.ready == old(self)@.ready + front(old(self)@.ahead, count as int),
            final(self)@.ahead == shifted(old(self)@.ahead, count as int),
            final(self).position() == old(self).position() + count,
            final(self).same_accounts(*old(self)),
            final(self).same_blocks(*old(self)),
    {
        let ghost before = *self;
        self.length = self.length + count;
        proof {
            assert forall|p: int|
                self.head <= p < self.head
                    + self.length implies #[trigger] self.blocks@.contains_key(p) by {
                if p >= before.head + before.length {
                    assert(before@.ahead.contains_key(p - before.head - before.length));
                }
            }
            assert(self@.ready =~= before@.ready + front(before@.ahead, count as int)) by {
                assert forall|i: int| 0 <= i < self@.ready.len() implies self@.ready[i] == (
                before@.ready + front(before@.ahead, count as int))[i] by {
                    if i >= before.length {
                        assert(before@.ahead.contains_key(i - before.length));
                    }
                }
            }
            assert(self@.ahead =~= shifted(before@.ahead, count as int)) by {
                assert forall|d: int|
                    self@.ahead.contains_key(d) <==> shifted(
                        before@.ahead,
                        count as int,
                    ).contains_key(d) by {}
            }
        }
    }

    /// Drops the first `count` ready bytes. Those to the peer were acknowledged,
    /// so the application gets their share back.
    pub fn dequeue_allocated(&mut self, count: usize)
        requires
            old(self).wf(),
            count <= old(self)@.ready.len(),
            old(self).is_tx() ==> count <= old(self).spec_accounts().outstanding && old(
                self).spec_accounts().released + count <= usize::MAX,
        ensures
            final(self).wf(),
            final(self)@.ready == old(self)@.ready.skip(count as int),
            final(self)@.ahead == old(self)@.ahead,
            final(self).position() == old(self).position(),
            final(self).is_tx() == old(self).is_tx(),
            final(self).spec_accounts() == old(self).spec_accounts().acknowledged(
                if old(self).is_tx() {
                    count as int
                } else {
                    0
                },
            ),
            final(self).dropped_front(*old(self), count as int),
    {
        let ghost before = *self;
        self.blocks.clear_range(self.head, self.head + count);
        self.head = self.head + count;
        self.length = self.length - count;
        if self.length == 0 {
            self.scratch = shared::from_vec(Vec::new());
        }
        if self.tx {
            self.accounts.outstanding = self.accounts.outstanding - count;
            self.accounts.released = self.accounts.released + count;
        }
        proof {
            assert(self@.ready =~= before@.ready.skip(count as int));
            assert(self@.ahead =~= before@.ahead);
        }
    }

    /// Appends a copy of as many bytes as the window and a block take. Returns how
    /// many those were.
    pub fn enqueue_slice(&mut self, data: &[u8]) -> (r: usize)
        requires
            old(self).wf(),
            forall|d: int|
                0 <= d < data@.len() ==> !(#[trigger] old(self)@.ahead.contains_key(d)),
            old(self).position() + 65536 <= usize::MAX,
        ensures
            final(self).wf(),
            r == least(
                65536,
                least(
                    data@.len() as int,
                    room(
                        old(self).spec_accounts(),
                        old(self).is_tx(),
                        old(self)@.ready.len() as int,
                    ),
                ),
            ),
            final(self)@.ready == old(self)@.ready + data@.take(r as int),
            final(self)@.ahead == shifted(old(self)@.ahead, r as int),
            final(self).position() == old(self).position() + r,
            final(self).same_accounts(*old(self)),
            final(self).wrote_block(*old(self), old(self)@.ready.len() as int, r as int),
    {
        let n: usize = least_of(65536, least_of(data.len(), self.window()));
        let bytes = shared::from_vec(slice_to_vec(slice_subrange(data, 0, n)));
        assert(data@.subrange(0, n as int) =~= data@.take(n as int));
        self.push(bytes)
    }

    /// Copies and drops the first ready bytes, at most `size`.
    pub fn dequeue_slice(&mut self, size: usize) -> (r: Vec<u8>)
        requires
            old(self).wf(),
            old(self).is_tx() ==> ({
                let count = least(size as int, old(self)@.ready.len() as int);
                &&& count <= old(self).spec_accounts().outstanding
                &&& old(self).spec_accounts().released + count <= usize::MAX
            }),
        ensures
            final(self).wf(),
            r@ == old(self)@.ready.take(least(size as int, old(self)@.ready.len() as int)),
            final(self)@.ready == old(self)@.ready.skip(r@.len() as int),
            final(self)@.ahead == old(self)@.ahead,
            final(self).position() == old(self).position(),
            final(self).is_tx() == old(self).is_tx(),
            final(self).spec_accounts() == old(self).spec_accounts().acknowledged(
                if old(self).is_tx() {
                    r@.len() as int
                } else {
                    0
                },
            ),
            final(self).dropped_front(*old(self), r@.len() as int),
    {
        let r = self.read_allocated(0, size);
        assert(r@ =~= self@.ready.take(r@.len() as int));
        self.dequeue_allocated(r.len());
        r
    }

    /// Drops everything. What the peer never acknowledged is given back to the
    /// application.
    pub fn clear(&mut self)
        requires
            old(self).wf(),
            old(self).is_tx() ==> old(self)@.ready.len() <= old(self).spec_accounts().outstanding
                && old(self).spec_accounts().released + old(self)@.ready.len() <= usize::MAX,
        ensures
            final(self).wf(),
            forall|o: int| #[trigger] final(self).reach(o) == o,
            final(self)@.ready == Seq::<u8>::empty(),
            final(self)@.ahead == Map::<int, u8>::empty(),
            final(self).position() == 0,
            final(self).is_tx() == old(self).is_tx(),
            final(self).spec_accounts() == old(self).spec_accounts().acknowledged(
                if old(self).is_tx() {
                    old(self)@.ready.len() as int
                } else {
                    0
                },
            ),
    {
        if self.tx {
            self.dequeue_allocated(self.length);
        }
        self.blocks = Blocks::new();
        self.head = 0;
        self.length = 0;
        assert(self@.ready =~= Seq::<u8>::empty());
        assert(self@.ahead =~= Map::<int, u8>::empty());
    }

    /// Where the kept blocks stand: how far after the first ready byte, and their
    /// lengths. Holes take no space.
    pub fn layout(&self) -> (r: Vec<(usize, usize)>)
        requires
            self.wf(),
        ensures
            forall|p: int| #[trigger]
                self@.kept(p) <==> exists|i: int|
                    0 <= i < r@.len() && (#[trigger] r@[i]).0 <= p < r@[i].0 + r@[i].1,
            forall|i: int, j: int|
                0 <= i < j < r@.len() ==> (#[trigger] r@[i]).0 + r@[i].1 <= (#[trigger] r@[j]).0,
            forall|i: int| 0 <= i < r@.len() ==> (#[trigger] r@[i]).1 > 0,
    {
        let found = self.blocks.layout();
        let mut r: Vec<(usize, usize)> = Vec::new();
        let mut i: usize = 0;
        while i < found.len()
            invariant
                self.wf(),
                i <= found@.len(),
                r@.len() == i,
                forall|p: int| #[trigger]
                    self.blocks@.contains_key(p) <==> exists|j: int|
                        0 <= j < found@.len() && (#[trigger] found@[j]).0 <= p < found@[j].0
                            + found@[j].1,
                forall|j: int| 0 <= j < found@.len() ==> (#[trigger] found@[j]).1 > 0,
                forall|j: int|
                    0 <= j < i ==> (#[trigger] r@[j]).0 + self.head == found@[j].0 && r@[j].1
                        == found@[j].1,
            decreases found@.len() - i,
        {
            let (start, len) = found[i];
            proof {
                assert(found@[i as int].0 <= start < found@[i as int].0 + found@[i as int].1);
                assert(self.blocks@.contains_key(start as int));
            }
            r.push((start - self.head, len));
            i = i + 1;
        }
        proof {
            assert forall|p: int| #[trigger] self@.kept(p) <==> exists|j: int|
                0 <= j < r@.len() && (#[trigger] r@[j]).0 <= p < r@[j].0 + r@[j].1 by {
                let q = self.head + p;
                if self.blocks@.contains_key(q) {
                    let j = choose|j: int|
                        0 <= j < found@.len() && (#[trigger] found@[j]).0 <= q < found@[j].0
                            + found@[j].1;
                    assert(r@[j].0 <= p < r@[j].0 + r@[j].1);
                }
                if exists|j: int| 0 <= j < r@.len() && (#[trigger] r@[j]).0 <= p < r@[j].0 + r@[j].1 {
                    let j = choose|j: int|
                        0 <= j < r@.len() && (#[trigger] r@[j]).0 <= p < r@[j].0 + r@[j].1;
                    assert(found@[j].0 <= q < found@[j].0 + found@[j].1);
                }
            }
            assert forall|x: int, y: int| 0 <= x < y < r@.len() implies (#[trigger] r@[x]).0
                + r@[x].1 <= (#[trigger] r@[y]).0 by {
                assert(found@[x].0 + found@[x].1 <= found@[y].0);
            }
        }
        r
    }
}

impl StorageView {
    /// There is a byte this far after the first ready one.
    pub open spec fn kept(self, p: int) -> bool {
        0 <= p && (p < self.ready.len() || self.ahead.contains_key(p - self.ready.len()))
    }

    /// `count` ready bytes from `offset` on.
    pub open spec fn part(self, offset: int, count: int) -> Seq<u8> {
        Seq::new(count as nat, |i: int| self.ready[offset + i])
    }
}

/// Bytes come out in the order of the stream, whatever the order in which the two
/// parts of it arrived.
pub proof fn law_arrival_order_does_not_matter(
    ahead: Map<int, u8>,
    first: Seq<u8>,
    second: Seq<u8>,
)
    requires
        ahead =~= Map::<int, u8>::empty(),
    ensures
        ({
            let n = (first.len() + second.len()) as int;
            let straight = written_ahead(
                written_ahead(ahead, 0, first),
                first.len() as int,
                second,
            );
            let reversed = written_ahead(
                written_ahead(ahead, first.len() as int, second),
                0,
                first,
            );
            &&& straight == reversed
            &&& front(straight, n) == first + second
            &&& shifted(straight, n) == Map::<int, u8>::empty()
        }),
{
    let n = (first.len() + second.len()) as int;
    let straight = written_ahead(written_ahead(ahead, 0, first), first.len() as int, second);
    let reversed = written_ahead(written_ahead(ahead, first.len() as int, second), 0, first);
    assert(straight =~= reversed);
    assert(front(straight, n) =~= first + second);
    assert(shifted(straight, n) =~= Map::<int, u8>::empty());
}

/// A later write replaces what it overlaps and nothing else, and does not fill the
/// hole before it.
pub proof fn law_writes_replace_only_their_range(
    ahead: Map<int, u8>,
    offset: int,
    data: Seq<u8>,
    d: int,
)
    ensures
        ({
            let after = written_ahead(ahead, offset, data);
            &&& offset <= d < offset + data.len() ==> after.contains_key(d) && after[d] == data[d
                - offset]
            &&& !(offset <= d < offset + data.len()) ==> (after.contains_key(d)
                <==> ahead.contains_key(d)) && (ahead.contains_key(d) ==> after[d] == ahead[d])
        }),
{
}

/// The window is what is left of the allowance, no more and no less: with what waits for
/// the application, where it waits here, and with what the application holds, it fills the
/// allowance; it is closed exactly where nothing is left.
pub proof fn law_windows_are_what_is_left(accounts: Accounts, tx: bool, ready: int)
    requires
        0 <= ready,
    ensures
        ({
            let taken = if tx {
                accounts.outstanding as int
            } else {
                accounts.outstanding + ready
            };
            &&& taken <= accounts.target ==> taken + room(accounts, tx, ready) == accounts.target
            &&& room(accounts, tx, ready) == 0 <==> taken >= accounts.target
            &&& 0 <= room(accounts, tx, ready) <= accounts.target
        }),
{
}

/// What the peer acknowledges is no longer held and is given back, byte for byte; the
/// allowance stays.
pub proof fn law_acknowledged_bytes_are_given_back(accounts: Accounts, count: int)
    requires
        0 <= count <= accounts.outstanding,
        accounts.released + count <= usize::MAX,
    ensures
        ({
            let after = accounts.acknowledged(count);
            &&& after.outstanding + after.released == accounts.outstanding + accounts.released
            &&& after.released - accounts.released == count
            &&& after.target == accounts.target
        }),
{
}

impl Storage {
    /// One write gathers all that is asked for where no more than sixty-four blocks hold
    /// it, and otherwise some of it; it never goes beyond what is asked for.
    pub proof fn law_one_write_gathers_few_blocks(self, position: int, end: int)
        requires
            self.wf(),
            0 <= position < end <= self@.ready.len(),
        ensures
            position < self.walk(position, end, MAX_PARTS as int) <= end,
            self.parts(position, end) <= 64 ==> self.walk(position, end, MAX_PARTS as int) == end,
    {
        self.lemma_walk_bounds(position, end, MAX_PARTS as int);
    }

    proof fn lemma_walk_bounds(self, position: int, end: int, parts: int)
        requires
            self.wf(),
            0 <= position <= end <= self@.ready.len(),
            0 <= parts,
        ensures
            position <= self.walk(position, end, parts) <= end,
            position < end && parts > 0 ==> position < self.walk(position, end, parts),
            self.parts(position, end) <= parts ==> self.walk(position, end, parts) == end,
        decreases parts,
    {
        if position < end {
            self.lemma_part_len(position, end - position);
            let next = position + self.part_len(position, end - position);
            if parts > 0 {
                self.lemma_walk_bounds(next, end, parts - 1);
            } else {
                self.lemma_parts_nonnegative(next, end);
            }
        }
    }

    proof fn lemma_parts_nonnegative(self, position: int, end: int)
        ensures
            self.parts(position, end) >= 0,
        decreases end - position,
    {
        if position < end && self.part_len(position, end - position) > 0 {
            self.lemma_parts_nonnegative(
                position + self.part_len(position, end - position),
                end,
            );
        }
    }
}

/// A part of what is ready is those bytes of the stream.
pub proof fn law_parts_are_bytes_of_the_stream(v: StorageView, offset: int, count: int)
    requires
        0 <= offset,
        0 <= count,
        offset + count <= v.ready.len(),
    ensures
        v.part(offset, count) == v.ready.subrange(offset, offset + count),
        v.part(0, offset) + v.part(offset, count) == v.ready.take(offset + count),
{
    assert(v.part(offset, count) =~= v.ready.subrange(offset, offset + count));
    assert(v.part(0, offset) + v.part(offset, count) =~= v.ready.take(offset + count));
}

} // verus!
