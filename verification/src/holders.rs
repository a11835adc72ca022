//! Bindings whose routes have ended while deliveries of them were still on their way.
//! Each keeps the share of its route until the last delivery is gone.
use crate::fragments::ENTRY_BYTES;
use crate::reassembly::Lease;
use vstd::prelude::*;

verus! {

/// One binding: its number, how many deliveries hold it, and the share.
struct Held {
    number: u64,
    count: u64,
    lease: Lease,
}

/// The bindings that are still held, by their numbers.
pub struct Holders {
    list: Vec<Held>,
    counts: Ghost<Map<u64, nat>>,
}

impl View for Holders {
    type V = Map<u64, nat>;

    closed spec fn view(&self) -> Map<u64, nat> {
        self.counts@
    }
}

impl Holders {
    /// Place `i` of the list says what the map says.
    spec fn placed(self, i: int) -> bool {
        let held = self.list@[i];
        &&& self@.contains_key(held.number)
        &&& self@[held.number] == held.count
        &&& held.count > 0
        &&& held.lease.bytes == ENTRY_BYTES
    }

    /// A number has a place.
    spec fn found(self, n: u64) -> bool {
        exists|i: int| 0 <= i < self.list@.len() && (#[trigger] self.list@[i]).number == n
    }

    /// List and map agree; somebody holds each binding.
    pub closed spec fn wf(self) -> bool {
        &&& self@.dom().finite()
        &&& forall|i: int| 0 <= i < self.list@.len() ==> #[trigger] self.placed(i)
        &&& forall|i: int, j: int|
            0 <= i < j < self.list@.len() ==> (#[trigger] self.list@[i]).number != (
            #[trigger] self.list@[j]).number
        &&& forall|n: u64| #[trigger] self@.contains_key(n) ==> self.found(n)
    }

    pub proof fn lemma_counts(&self)
        requires
            self.wf(),
        ensures
            self@.dom().finite(),
            forall|n: u64| #[trigger] self@.contains_key(n) ==> 0 < self@[n] <= u64::MAX,
    {
        assert forall|n: u64| #[trigger] self@.contains_key(n) implies 0 < self@[n]
            <= u64::MAX by {
            assert(self.found(n));
            let i = choose|i: int|
                0 <= i < self.list@.len() && (#[trigger] self.list@[i]).number == n;
            assert(self.placed(i));
        }
    }

    pub fn new() -> (r: Holders)
        ensures
            r.wf(),
            r@ == Map::<u64, nat>::empty(),
    {
        Holders { list: Vec::new(), counts: Ghost(Map::empty()) }
    }

    /// Adds a binding that is held, with the share of its route.
    pub fn insert(&mut self, number: u64, count: u64, lease: Lease)
        requires
            old(self).wf(),
            !old(self)@.contains_key(number),
            count > 0,
            lease.bytes == ENTRY_BYTES,
        ensures
            final(self).wf(),
            final(self)@ == old(self)@.insert(number, count as nat),
    {
        let ghost before = *self;
        self.list.push(Held { number, count, lease });
        proof {
            self.counts = Ghost(self.counts@.insert(number, count as nat));
            let last = before.list@.len() as int;
            assert forall|i: int| 0 <= i < self.list@.len() implies #[trigger] self.placed(i) by {
                if i < last {
                    assert(before.placed(i));
                    assert(self.list@[i] == before.list@[i]);
                }
            }
            assert forall|i: int, j: int| 0 <= i < j < self.list@.len() implies (
            #[trigger] self.list@[i]).number != (#[trigger] self.list@[j]).number by {
                assert(before.placed(i));
            }
            assert forall|n: u64| #[trigger] self@.contains_key(n) implies self.found(n) by {
                if n == number {
                    assert(self.list@[last].number == n);
                } else {
                    assert(before.found(n));
                    let i = choose|i: int|
                        0 <= i < before.list@.len() && (#[trigger] before.list@[i]).number == n;
                    assert(self.list@[i].number == n);
                }
            }
        }
    }

    /// One delivery of a binding is gone. The last one gives the share back; nothing
    /// happens where nobody holds the binding.
    pub fn leave(&mut self, number: u64) -> (r: Option<Lease>)
        requires
            old(self).wf(),
        ensures
            final(self).wf(),
            final(self)@ == left(old(self)@, number),
            r is Some == (old(self)@.contains_key(number) && old(self)@[number] == 1),
            r matches Some(lease) ==> lease.bytes == ENTRY_BYTES,
    {
        let mut i: usize = 0;
        while i < self.list.len()
            invariant
                i <= self.list@.len(),
                *self == *old(self),
                self.wf(),
                forall|j: int| 0 <= j < i ==> (#[trigger] self.list@[j]).number != number,
            decreases self.list@.len() - i,
        {
            if self.list[i].number == number {
                assert(self.placed(i as int));
                if self.list[i].count > 1 {
                    self.fewer(i);
                    return None;
                }
                return Some(self.take(i));
            }
            i = i + 1;
        }
        assert(!self@.contains_key(number)) by {
            if self@.contains_key(number) {
                assert(self.found(number));
            }
        }
        None
    }

    /// Counts one delivery less at a place.
    fn fewer(&mut self, i: usize)
        requires
            old(self).wf(),
            i < old(self).list@.len(),
            old(self).list@[i as int].count > 1,
        ensures
            final(self).wf(),
            final(self)@ == old(self)@.insert(
                old(self).list@[i as int].number,
                (old(self).list@[i as int].count - 1) as nat,
            ),
    {
        let ghost before = *self;
        self.list[i].count = self.list[i].count - 1;
        proof {
            let held = self.list@[i as int];
            self.counts = Ghost(self.counts@.insert(held.number, held.count as nat));
            assert(before.placed(i as int));
            assert(self@.dom() =~= before@.dom());
            assert forall|j: int| 0 <= j < self.list@.len() implies #[trigger] self.placed(j) by {
                assert(before.placed(j));
                if j != i {
                    assert(self.list@[j] == before.list@[j]);
                    assert(before.list@[j].number != before.list@[i as int].number);
                }
            }
            assert forall|j: int, k: int| 0 <= j < k < self.list@.len() implies (
            #[trigger] self.list@[j]).number != (#[trigger] self.list@[k]).number by {
                assert(before.list@[j].number != before.list@[k].number);
            }
            assert forall|n: u64| #[trigger] self@.contains_key(n) implies self.found(n) by {
                assert(before.found(n));
                let j = choose|j: int|
                    0 <= j < before.list@.len() && (#[trigger] before.list@[j]).number == n;
                assert(self.list@[j].number == n);
            }
        }
    }

    /// Takes a place off, and its share.
    fn take(&mut self, i: usize) -> (r: Lease)
        requires
            old(self).wf(),
            i < old(self).list@.len(),
        ensures
            final(self).wf(),
            final(self)@ == old(self)@.remove(old(self).list@[i as int].number),
            r.bytes == ENTRY_BYTES,
    {
        let ghost before = *self;
        let gone = self.list.swap_remove(i);
        proof {
            let last = before.list@.len() - 1;
            assert(before.placed(i as int));
            self.counts = Ghost(self.counts@.remove(gone.number));
            assert forall|j: int| 0 <= j < self.list@.len() implies #[trigger] self.list@[j]
                == before.list@[if j == i {
                last
            } else {
                j
            }] by {}
            assert forall|j: int| 0 <= j < self.list@.len() implies #[trigger] self.placed(j) by {
                let o = if j == i {
                    last
                } else {
                    j
                };
                assert(before.placed(o));
                assert(self.list@[j] == before.list@[o]);
                assert(before.list@[o].number != before.list@[i as int].number);
            }
            assert forall|j: int, k: int| 0 <= j < k < self.list@.len() implies (
            #[trigger] self.list@[j]).number != (#[trigger] self.list@[k]).number by {
                let oj = if j == i {
                    last
                } else {
                    j
                };
                let ok = if k == i {
                    last
                } else {
                    k
                };
                assert(before.list@[oj].number != before.list@[ok].number);
            }
            assert forall|n: u64| #[trigger] self@.contains_key(n) implies self.found(n) by {
                assert(before.found(n));
                let o = choose|o: int|
                    0 <= o < before.list@.len() && (#[trigger] before.list@[o]).number == n;
                let j = if o == last {
                    i as int
                } else {
                    o
                };
                assert(self.list@[j].number == n);
            }
        }
        gone.lease
    }
}

/// The bindings that are held once one delivery of a binding is gone.
pub open spec fn left(held: Map<u64, nat>, number: u64) -> Map<u64, nat> {
    if !held.contains_key(number) {
        held
    } else if held[number] > 1 {
        held.insert(number, (held[number] - 1) as nat)
    } else {
        held.remove(number)
    }
}

} // verus!
