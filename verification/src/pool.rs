//! Reusable blocks, kept by size. Free blocks are a bounded cache, never a limit
//! on live data.
use crate::queue::{free_in, new_free, pop_free, push_free};
use crossbeam_queue::SegQueue;
use vstd::arithmetic::power2::pow2;
use vstd::prelude::*;

verus! {

/// One class for each power of two up to the largest block.
pub const CLASSES: usize = 17;

/// How many free blocks of a class are kept.
pub const CACHED_PER_CLASS: usize = 32;

/// The smallest and the largest block.
pub const SMALLEST: usize = 256;

pub const LARGEST: usize = 65536;

/// The class of a length: its blocks hold two to the power of its number, which is
/// the least that the length and the smallest block need.
pub open spec fn is_class(class: int, length: int) -> bool {
    &&& 8 <= class < CLASSES
    &&& length <= pow2(class as nat)
    &&& class == 8 || pow2((class - 1) as nat) < length
}

/// Finds the class of a length, and how many bytes its blocks hold.
pub fn class_of(length: usize) -> (r: (usize, usize))
    requires
        length <= LARGEST,
    ensures
        is_class(r.0 as int, length as int),
        r.1 == pow2(r.0 as nat),
{
    let mut class: usize = 8;
    let mut capacity: usize = SMALLEST;
    proof {
        vstd::arithmetic::power2::lemma2_to64();
    }
    while capacity < length
        invariant
            8 <= class < CLASSES,
            capacity == pow2(class as nat),
            length <= LARGEST,
            class == 8 || pow2((class - 1) as nat) < length,
            pow2(16) == LARGEST,
        decreases CLASSES - class,
    {
        proof {
            vstd::arithmetic::power2::lemma_pow2_unfold((class + 1) as nat);
            if class == 16 {
                assert(capacity == LARGEST);
            }
            if class < 15 {
                vstd::arithmetic::power2::lemma_pow2_strictly_increases(
                    (class + 1) as nat,
                    16,
                );
            }
        }
        capacity = capacity * 2;
        class = class + 1;
    }
    (class, capacity)
}

/// A block in use, and the class that it goes back to.
pub struct Block {
    pub bytes: Vec<u8>,
    pub class: usize,
}

/// The free blocks of one class, and how many there are.
struct Class {
    blocks: SegQueue<Vec<u8>>,
    cached: usize,
}

impl Class {
    /// The count is right, and there are not too many.
    spec fn wf(self) -> bool {
        self.cached == free_in(self.blocks).len() && self.cached <= CACHED_PER_CLASS
    }
}

/// Free blocks by class.
pub struct Pool {
    classes: Vec<Class>,
}

impl Pool {
    /// How many free blocks of a class are kept.
    pub closed spec fn cached(self, class: int) -> int {
        self.classes@[class].cached as int
    }

    /// There is a queue for every class, and none is too long.
    pub closed spec fn wf(self) -> bool {
        &&& self.classes@.len() == CLASSES
        &&& forall|i: int| 0 <= i < CLASSES ==> (#[trigger] self.classes@[i]).wf()
    }

    pub fn new() -> (r: Pool)
        ensures
            r.wf(),
            forall|i: int| 0 <= i < CLASSES ==> #[trigger] r.cached(i) == 0,
    {
        let mut classes: Vec<Class> = Vec::new();
        while classes.len() < CLASSES
            invariant
                classes@.len() <= CLASSES,
                forall|i: int|
                    0 <= i < classes@.len() ==> (#[trigger] classes@[i]).wf() && classes@[i].cached
                        == 0,
            decreases CLASSES - classes.len(),
        {
            classes.push(Class { blocks: new_free(), cached: 0 });
        }
        Pool { classes }
    }

    /// How many free blocks of a class are kept.
    pub fn count(&self, class: usize) -> (r: usize)
        requires
            self.wf(),
            class < CLASSES,
        ensures
            r == self.cached(class as int),
            r <= CACHED_PER_CLASS,
    {
        assert(self.classes@[class as int].wf());
        self.classes[class].cached
    }

    /// How many free blocks are left after one was asked for.
    pub open spec fn taken_from(self, had: Pool, class: int) -> bool {
        forall|i: int|
            0 <= i < CLASSES ==> #[trigger] self.cached(i) == (if i == class && had.cached(i) > 0 {
                had.cached(i) - 1
            } else {
                had.cached(i)
            })
    }

    /// A block of some length, in storage that was used before where there is any.
    fn acquire(&mut self, length: usize) -> (r: Block)
        requires
            old(self).wf(),
            length <= LARGEST,
        ensures
            final(self).wf(),
            r.bytes@.len() == length,
            is_class(r.class as int, length as int),
            final(self).taken_from(*old(self), r.class as int),
    {
        let (class, capacity) = class_of(length);
        let ghost before = self.classes@;
        assert(self.classes@[class as int].wf());
        let free = pop_free(&mut self.classes[class].blocks);
        if free.is_some() {
            self.classes[class].cached = self.classes[class].cached - 1;
        }
        proof {
            assert forall|i: int| 0 <= i < CLASSES implies (#[trigger] self.classes@[i]).wf() by {
                assert(before[i].wf());
                if i != class {
                    assert(self.classes@[i] == before[i]);
                }
            }
            assert forall|i: int| 0 <= i < CLASSES implies #[trigger] self.cached(i) == (if i
                == class && old(self).cached(i) > 0 {
                old(self).cached(i) - 1
            } else {
                old(self).cached(i)
            }) by {}
        }
        let mut bytes: Vec<u8> = match free {
            Some(bytes) => bytes,
            None => Vec::with_capacity(capacity),
        };
        bytes.resize(length, 0);
        Block { bytes, class }
    }

    /// Whether a function can fill every block of some length, and keeps its length.
    pub open spec fn fills<R, F: FnOnce(Vec<u8>) -> (R, Vec<u8>)>(fill: F, length: int) -> bool {
        &&& forall|bytes: Vec<u8>| bytes@.len() == length ==> #[trigger] fill.requires((bytes,))
        &&& forall|bytes: Vec<u8>, out: (R, Vec<u8>)|
            bytes@.len() == length && #[trigger] fill.ensures((bytes,), out) ==> out.1@.len()
                == length
    }

    /// A block that a function has filled, and what else it returned. The function
    /// gets storage of the right length, whose bytes may be left from an earlier use.
    pub fn encode<R, F: FnOnce(Vec<u8>) -> (R, Vec<u8>)>(&mut self, length: usize, fill: F) -> (r: (
        R,
        Block,
    ))
        requires
            old(self).wf(),
            length <= LARGEST,
            Pool::fills(fill, length as int),
        ensures
            final(self).wf(),
            exists|bytes: Vec<u8>|
                bytes@.len() == length && #[trigger] fill.ensures((bytes,), (r.0, r.1.bytes)),
            r.1.bytes@.len() == length,
            is_class(r.1.class as int, length as int),
            final(self).taken_from(*old(self), r.1.class as int),
    {
        let Block { bytes, class } = self.acquire(length);
        let ghost given = bytes;
        let out = fill(bytes);
        let ghost kept = out;
        let r = (out.0, Block { bytes: out.1, class });
        assert(kept == (r.0, r.1.bytes));
        assert(fill.ensures((given,), (r.0, r.1.bytes)));
        r
    }

    /// A block that a function has filled.
    pub fn fill<F: FnOnce(Vec<u8>) -> ((), Vec<u8>)>(&mut self, length: usize, fill: F) -> (r: Block)
        requires
            old(self).wf(),
            length <= LARGEST,
            Pool::fills(fill, length as int),
        ensures
            final(self).wf(),
            exists|bytes: Vec<u8>|
                bytes@.len() == length && #[trigger] fill.ensures((bytes,), ((), r.bytes)),
            r.bytes@.len() == length,
            is_class(r.class as int, length as int),
            final(self).taken_from(*old(self), r.class as int),
    {
        let (_, block) = self.encode(length, fill);
        block
    }

    /// A block with a copy of some bytes, in storage that was used before where
    /// there is any.
    pub fn copy(&mut self, data: &[u8]) -> (r: Block)
        requires
            old(self).wf(),
            data@.len() <= LARGEST,
        ensures
            final(self).wf(),
            r.bytes@ == data@,
            is_class(r.class as int, data@.len() as int),
            final(self).taken_from(*old(self), r.class as int),
    {
        let fill = |bytes: Vec<u8>| -> (out: ((), Vec<u8>))
            ensures
                out.1@ == data@,
            { Pool::overwrite(bytes, data) };
        self.fill(data.len(), fill)
    }

    /// Puts some bytes in the place of others.
    fn overwrite(bytes: Vec<u8>, data: &[u8]) -> (r: ((), Vec<u8>))
        ensures
            r.1@ == data@,
    {
        let mut bytes = bytes;
        bytes.clear();
        bytes.extend_from_slice(data);
        assert(bytes@ =~= data@);
        ((), bytes)
    }

    /// Takes a block back after its last view is gone, if its class has room.
    pub fn give(&mut self, block: Block) -> (r: bool)
        requires
            old(self).wf(),
            block.class < CLASSES,
        ensures
            final(self).wf(),
            r == (old(self).cached(block.class as int) < CACHED_PER_CLASS),
            forall|i: int|
                0 <= i < CLASSES ==> #[trigger] final(self).cached(i) == old(self).cached(i) + (
                if r && i == block.class {
                    1int
                } else {
                    0
                }),
    {
        let class: usize = block.class;
        let ghost before = self.classes@;
        assert(self.classes@[class as int].wf());
        if self.classes[class].cached >= CACHED_PER_CLASS {
            return false;
        }
        push_free(&mut self.classes[class].blocks, block.bytes);
        self.classes[class].cached = self.classes[class].cached + 1;
        proof {
            assert forall|i: int| 0 <= i < CLASSES implies (#[trigger] self.classes@[i]).wf() by {
                assert(before[i].wf());
                if i != class {
                    assert(self.classes@[i] == before[i]);
                }
            }
            assert forall|i: int| 0 <= i < CLASSES implies #[trigger] self.cached(i) == old(
                self).cached(i) + (if i == class {
                1int
            } else {
                0
            }) by {}
        }
        true
    }

    /// Drops all free blocks.
    pub fn trim(&mut self)
        ensures
            final(self).wf(),
            forall|i: int| 0 <= i < CLASSES ==> #[trigger] final(self).cached(i) == 0,
    {
        *self = Pool::new();
    }
}

/// A block is large enough for what it is taken for, and unless it is one of the smallest,
/// less than twice as large.
pub proof fn law_blocks_fit_their_use(class: int, length: int)
    requires
        is_class(class, length),
    ensures
        length <= pow2(class as nat),
        pow2(class as nat) == 256 || pow2(class as nat) < 2 * length,
        256 <= pow2(class as nat) <= 65536,
{
    vstd::arithmetic::power2::lemma2_to64();
    if class > 8 {
        vstd::arithmetic::power2::lemma_pow2_unfold(class as nat);
        vstd::arithmetic::power2::lemma_pow2_strictly_increases(8, class as nat);
    }
    if class < 16 {
        vstd::arithmetic::power2::lemma_pow2_strictly_increases(class as nat, 16);
    }
}

} // verus!
