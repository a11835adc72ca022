//! Sparse bytes over shared blocks. Positions preserve data out of order without
//! allocating holes; a block is immutable, and replacing a part of it splits its
//! view.
use crate::shared;
use crate::shared::{as_slice, contents};
use bytes::Bytes;
use vstd::prelude::*;
use vstd::slice::slice_subrange;

verus! {

/// A view of some bytes, at their position.
pub struct Block {
    pub start: usize,
    pub bytes: Bytes,
}

impl Block {
    /// The position after the last byte.
    pub open spec fn end(self) -> int {
        self.start + contents(self.bytes).len()
    }

    /// The block has a byte at a position.
    pub open spec fn covers(self, p: int) -> bool {
        self.start <= p < self.end()
    }

    /// The byte at a position.
    pub open spec fn at(self, p: int) -> u8 {
        contents(self.bytes)[p - self.start]
    }
}

/// Bytes at positions. Blocks are not empty, do not overlap, and stand in order.
pub struct Blocks {
    list: Vec<Block>,
    cells: Ghost<Map<int, u8>>,
}

impl View for Blocks {
    type V = Map<int, u8>;

    closed spec fn view(&self) -> Map<int, u8> {
        self.cells@
    }
}

/// The positions from `start` up to `end`, with the bytes of `data`.
pub open spec fn written(cells: Map<int, u8>, start: int, data: Seq<u8>) -> Map<int, u8> {
    Map::new(
        |p: int| cells.contains_key(p) || start <= p < start + data.len(),
        |p: int|
            if start <= p < start + data.len() {
                data[p - start]
            } else {
                cells[p]
            },
    )
}

/// The cells outside of a range.
pub open spec fn outside(cells: Map<int, u8>, start: int, end: int) -> Map<int, u8> {
    Map::new(|p: int| cells.contains_key(p) && !(start <= p < end), |p: int| cells[p])
}

/// Where a block that covers `p` and ended at `reach` ends once something was put
/// from `start` up to `end`.
pub open spec fn reach_after_write(reach: int, p: int, start: int, end: int) -> int {
    if start <= p < end {
        end
    } else if start < end && p < start < reach {
        start
    } else {
        reach
    }
}

/// Where a block that covers `p` and ended at `reach` ends once everything from
/// `start` up to `end` is gone.
pub open spec fn reach_after_clear(reach: int, p: int, start: int, end: int) -> int {
    if start <= p < end {
        p
    } else if p < start < reach {
        start
    } else {
        reach
    }
}

impl Blocks {
    /// Some block has a byte at a position.
    spec fn covered(self, p: int) -> bool {
        exists|i: int| 0 <= i < self.list@.len() && (#[trigger] self.list@[i]).covers(p)
    }

    pub closed spec fn wf(self) -> bool {
        &&& forall|i: int|
            0 <= i < self.list@.len() ==> (#[trigger] self.list@[i]).start < self.list@[i].end()
                <= usize::MAX
        &&& forall|i: int, j: int|
            0 <= i < j < self.list@.len() ==> (#[trigger] self.list@[i]).end() <= (
            #[trigger] self.list@[j]).start
        &&& forall|i: int, p: int|
            0 <= i < self.list@.len() && #[trigger] self.list@[i].covers(p) ==> self@.contains_key(
                p,
            ) && self@[p] == self.list@[i].at(p)
        &&& forall|p: int| #[trigger] self@.contains_key(p) ==> self.covered(p)
    }

    /// No block reaches over a position.
    spec fn cut(self, at: int) -> bool {
        forall|i: int|
            0 <= i < self.list@.len() ==> (#[trigger] self.list@[i]).end() <= at
                || self.list@[i].start >= at
    }

    pub fn new() -> (r: Blocks)
        ensures
            r.wf(),
            r@ == Map::<int, u8>::empty(),
            forall|p: int| #[trigger] r.reach(p) == p,
    {
        Blocks { list: Vec::new(), cells: Ghost(Map::empty()) }
    }

    /// How many blocks start before a position.
    fn before(&self, at: usize) -> (r: usize)
        requires
            self.wf(),
        ensures
            r <= self.list@.len(),
            forall|i: int| 0 <= i < r ==> (#[trigger] self.list@[i]).start < at,
            forall|i: int| r <= i < self.list@.len() ==> (#[trigger] self.list@[i]).start >= at,
    {
        let mut low: usize = 0;
        let mut high: usize = self.list.len();
        while low < high
            invariant
                self.wf(),
                low <= high <= self.list@.len(),
                forall|i: int| 0 <= i < low ==> (#[trigger] self.list@[i]).start < at,
                forall|i: int|
                    high <= i < self.list@.len() ==> (#[trigger] self.list@[i]).start >= at,
            decreases high - low,
        {
            let mid: usize = low + (high - low) / 2;
            if self.list[mid].start < at {
                proof {
                    assert forall|i: int| 0 <= i < mid + 1 implies (#[trigger] self.list@[i]).start
                        < at by {
                        if i < mid {
                            assert(self.list@[i].end() <= self.list@[mid as int].start);
                        }
                    }
                }
                low = mid + 1;
            } else {
                proof {
                    assert forall|i: int| mid <= i < self.list@.len() implies (
                    #[trigger] self.list@[i]).start >= at by {
                        if i > mid {
                            assert(self.list@[mid as int].end() <= self.list@[i].start);
                        }
                    }
                }
                high = mid;
            }
        }
        low
    }

    /// Splits the block that reaches over a position, if there is one.
    fn split(&mut self, at: usize)
        requires
            old(self).wf(),
        ensures
            final(self).wf(),
            final(self)@ == old(self)@,
            final(self).cut(at as int),
            forall|q: int| old(self).cut(q) ==> #[trigger] final(self).cut(q),
            forall|p: int| #[trigger]
                final(self).reach(p) == (if p < at < old(self).reach(p) {
                    at as int
                } else {
                    old(self).reach(p)
                }),
    {
        let i: usize = self.before(at);
        if i == 0 {
            proof {
                assert forall|p: int| !(p < at < #[trigger] self.reach(p)) by {
                    if self.covered(p) {
                        self.lemma_covered_reach(p);
                    }
                }
            }
            return;
        }
        let k: usize = i - 1;
        let start: usize = self.list[k].start;
        let len: usize = self.list[k].bytes.len();
        if at - start >= len {
            proof {
                assert forall|j: int| 0 <= j < self.list@.len() implies (
                #[trigger] self.list@[j]).end() <= at || self.list@[j].start >= at by {
                    if j < k {
                        assert(self.list@[j].end() <= self.list@[k as int].start);
                    }
                }
                assert forall|p: int| !(p < at < #[trigger] self.reach(p)) by {
                    if self.covered(p) {
                        let o = self.lemma_covered_reach(p);
                        assert(self.list@[o].end() <= at || self.list@[o].start >= at);
                    }
                }
            }
            return;
        }
        let ghost all = self.list@;
        let head = shared::slice(&self.list[k].bytes, 0, at - start);
        let tail = shared::slice(&self.list[k].bytes, at - start, len);
        self.list[k] = Block { start, bytes: head };
        self.list.insert(i, Block { start: at, bytes: tail });
        proof {
            let now = self.list@;
            let b = all[k as int];
            assert forall|j: int| 0 <= j < now.len() implies (#[trigger] now[j]).start
                < now[j].end() <= usize::MAX && (j < k ==> now[j] == all[j]) && (j > i ==> now[j]
                == all[j - 1]) by {}
            assert(now[k as int].end() == at);
            assert(now[i as int].end() == b.end());
            assert forall|x: int, y: int| 0 <= x < y < now.len() implies (#[trigger] now[x]).end()
                <= (#[trigger] now[y]).start by {
                let ox = if x < i {
                    x
                } else {
                    x - 1
                };
                let oy = if y < i {
                    y
                } else {
                    y - 1
                };
                if ox < oy {
                    assert(all[ox].end() <= all[oy].start);
                }
            }
            assert forall|j: int, p: int|
                0 <= j < now.len() && #[trigger] now[j].covers(p) implies self@.contains_key(p)
                && self@[p] == now[j].at(p) by {
                let o = if j < i {
                    j
                } else {
                    j - 1
                };
                assert(all[o].covers(p));
            }
            assert forall|p: int| #[trigger] self@.contains_key(p) implies self.covered(p) by {
                assert(old(self)@.contains_key(p));
                assert(old(self).covered(p));
                let o = choose|o: int| 0 <= o < all.len() && (#[trigger] all[o]).covers(p);
                let j = if o < k {
                    o
                } else if o > k {
                    o + 1
                } else if p < at {
                    k as int
                } else {
                    i as int
                };
                assert(now[j].covers(p));
            }
            assert(self.cut(at as int)) by {
                assert forall|j: int| 0 <= j < now.len() implies (#[trigger] now[j]).end() <= at
                    || now[j].start >= at by {
                    if j < k {
                        assert(all[j].end() <= all[k as int].start);
                    } else if j > i {
                        assert(all[k as int].end() <= all[j - 1].start);
                    }
                }
            }
            assert forall|q: int| old(self).cut(q) implies #[trigger] self.cut(q) by {
                assert forall|j: int| 0 <= j < now.len() implies (#[trigger] now[j]).end() <= q
                    || now[j].start >= q by {
                    let o = if j < i {
                        j
                    } else {
                        j - 1
                    };
                    assert(all[o].end() <= q || all[o].start >= q);
                }
            }
            assert forall|p: int| #[trigger] self.reach(p) == (if p < at < old(self).reach(p) {
                at as int
            } else {
                old(self).reach(p)
            }) by {
                if old(self).covered(p) {
                    let o = old(self).lemma_covered_reach(p);
                    let j = if o < k {
                        o
                    } else if o > k {
                        o + 1
                    } else if p < at {
                        k as int
                    } else {
                        i as int
                    };
                    assert(now[j].covers(p));
                    self.lemma_reach_of(j, p);
                    if o < k {
                        assert(all[o].end() <= all[k as int].start);
                    } else if o > k {
                        assert(all[k as int].end() <= all[o].start);
                    }
                } else if self.covered(p) {
                    let j = self.lemma_covered_reach(p);
                    let o = if j < i {
                        j
                    } else {
                        j - 1
                    };
                    assert(all[o].covers(p));
                }
            }
        }
    }

    /// The block that covers a position says how far it reaches.
    proof fn lemma_reach_of(self, i: int, p: int)
        requires
            self.wf(),
            0 <= i < self.list@.len(),
            self.list@[i].covers(p),
        ensures
            self.reach(p) == self.list@[i].end(),
    {
        let o = choose|o: int| 0 <= o < self.list@.len() && (#[trigger] self.list@[o]).covers(p);
        if o < i {
            assert(self.list@[o].end() <= self.list@[i].start);
        } else if i < o {
            assert(self.list@[i].end() <= self.list@[o].start);
        }
    }

    /// A block that covers a position.
    proof fn lemma_covered_reach(self, p: int) -> (i: int)
        requires
            self.wf(),
            self.covered(p),
        ensures
            0 <= i < self.list@.len(),
            self.list@[i].covers(p),
            self.reach(p) == self.list@[i].end(),
    {
        let i = choose|i: int| 0 <= i < self.list@.len() && (#[trigger] self.list@[i]).covers(p);
        self.lemma_reach_of(i, p);
        i
    }

    /// Removes one block.
    fn remove_at(&mut self, i: usize) -> (r: Block)
        requires
            old(self).wf(),
            i < old(self).list@.len(),
        ensures
            final(self).wf(),
            r == old(self).list@[i as int],
            final(self).list@ == old(self).list@.remove(i as int),
            final(self)@ == outside(old(self)@, r.start as int, r.end()),
            forall|p: int| #[trigger]
                final(self).reach(p) == (if r.covers(p) {
                    p
                } else {
                    old(self).reach(p)
                }),
    {
        let ghost all = self.list@;
        let gone = self.list.remove(i);
        proof {
            self.cells = Ghost(outside(self@, gone.start as int, gone.end()));
            let now = self.list@;
            assert forall|j: int| 0 <= j < now.len() implies (#[trigger] now[j]) == all[if j < i {
                j
            } else {
                j + 1
            }] by {}
            assert forall|j: int, p: int|
                0 <= j < now.len() && #[trigger] now[j].covers(p) implies self@.contains_key(p)
                && self@[p] == now[j].at(p) by {
                let o = if j < i {
                    j
                } else {
                    j + 1
                };
                assert(all[o].covers(p));
                if o < i {
                    assert(all[o].end() <= all[i as int].start);
                } else {
                    assert(all[i as int].end() <= all[o].start);
                }
            }
            assert forall|p: int| #[trigger] self@.contains_key(p) implies self.covered(p) by {
                assert(old(self)@.contains_key(p));
                assert(old(self).covered(p));
                let o = choose|o: int| 0 <= o < all.len() && (#[trigger] all[o]).covers(p);
                assert(o != i);
                let j = if o < i {
                    o
                } else {
                    o - 1
                };
                assert(now[j].covers(p));
            }
            assert forall|p: int| #[trigger] self.reach(p) == (if gone.covers(p) {
                p
            } else {
                old(self).reach(p)
            }) by {
                if self.covered(p) {
                    let j = self.lemma_covered_reach(p);
                    let o = if j < i {
                        j
                    } else {
                        j + 1
                    };
                    assert(all[o].covers(p));
                    old(self).lemma_reach_of(o, p);
                    if o < i {
                        assert(all[o].end() <= all[i as int].start);
                    } else {
                        assert(all[i as int].end() <= all[o].start);
                    }
                } else if old(self).covered(p) {
                    let o = old(self).lemma_covered_reach(p);
                    if o != i {
                        assert(now[if o < i {
                            o
                        } else {
                            o - 1
                        }].covers(p));
                    }
                }
            }
        }
        gone
    }

    /// Removes everything from `start` up to `end`.
    pub fn clear_range(&mut self, start: usize, end: usize)
        requires
            old(self).wf(),
            start <= end,
        ensures
            final(self).wf(),
            final(self)@ == outside(old(self)@, start as int, end as int),
            forall|p: int| #[trigger]
                final(self).reach(p) == reach_after_clear(
                    old(self).reach(p),
                    p,
                    start as int,
                    end as int,
                ),
    {
        let ghost all = self@;
        self.split(start);
        let ghost first = *self;
        self.split(end);
        let ghost mid = *self;
        proof {
            assert forall|p: int| p < start || p >= end implies #[trigger] mid.reach(p)
                == reach_after_clear(old(self).reach(p), p, start as int, end as int) by {
                assert(first.reach(p) == (if p < start < old(self).reach(p) {
                    start as int
                } else {
                    old(self).reach(p)
                }));
            }
        }
        let i: usize = self.before(start);
        assert(self.cut(start as int));
        assert(self@ =~= outside(all, start as int, start as int));
        let ghost mut done: int = start as int;
        while i < self.list.len() && self.list[i].start < end
            invariant
                self.wf(),
                i <= self.list@.len(),
                self.cut(end as int),
                start <= done <= end,
                forall|j: int| 0 <= j < i ==> (#[trigger] self.list@[j]).end() <= start,
                forall|j: int| i <= j < self.list@.len() ==> (#[trigger] self.list@[j]).start >= done,
                self@ == outside(all, start as int, done),
                forall|p: int| #[trigger]
                    self.reach(p) == (if start <= p < done {
                        p
                    } else {
                        mid.reach(p)
                    }),
            decreases self.list@.len() - i,
        {
            let ghost before = *self;
            let gone = self.remove_at(i);
            proof {
                assert(before.list@[i as int].end() <= end);
                assert forall|j: int| i <= j < self.list@.len() implies (
                #[trigger] self.list@[j]).start >= gone.end() by {
                    assert(self.list@[j] == before.list@[j + 1]);
                    assert(before.list@[i as int].end() <= before.list@[j + 1].start);
                }
                assert forall|j: int| 0 <= j < i implies (#[trigger] self.list@[j]).end()
                    <= start by {
                    assert(self.list@[j] == before.list@[j]);
                }
                assert forall|j: int| 0 <= j < self.list@.len() implies (
                #[trigger] self.list@[j]).end() <= end || self.list@[j].start >= end by {
                    assert(self.list@[j] == before.list@[if j < i {
                        j
                    } else {
                        j + 1
                    }]);
                }
                assert(self@ =~= outside(all, start as int, gone.end())) by {
                    assert forall|p: int| #[trigger]
                        outside(all, start as int, gone.end()).contains_key(p)
                            <==> self@.contains_key(p) by {
                        if done <= p < gone.start && before@.contains_key(p) {
                            assert(before.covered(p));
                            let o = choose|o: int|
                                0 <= o < before.list@.len() && (
                                #[trigger] before.list@[o]).covers(p);
                            if o < i {
                                assert(before.list@[o].end() <= start);
                            } else if o > i {
                                assert(before.list@[i as int].end() <= before.list@[o].start);
                            }
                        }
                    }
                }
                assert forall|p: int| #[trigger] self.reach(p) == (if start <= p < gone.end() {
                    p
                } else {
                    mid.reach(p)
                }) by {
                    assert(before.reach(p) == (if start <= p < done {
                        p
                    } else {
                        mid.reach(p)
                    }));
                    if start <= p < gone.end() && self.covered(p) {
                        let j = self.lemma_covered_reach(p);
                        if j < i {
                            assert(self.list@[j].end() <= start);
                        }
                    }
                }
                done = gone.end();
            }
        }
        proof {
            assert forall|p: int| #[trigger] self.reach(p) == reach_after_clear(
                old(self).reach(p),
                p,
                start as int,
                end as int,
            ) by {
                if done <= p < end && self.covered(p) {
                    let j = self.lemma_covered_reach(p);
                    if j < i {
                        assert(self.list@[j].end() <= start);
                    } else if j > i {
                        assert(self.list@[i as int].end() <= self.list@[j].start);
                    }
                }
            }
            assert(self@ =~= outside(all, start as int, end as int)) by {
                assert forall|p: int| #[trigger]
                    outside(all, start as int, end as int).contains_key(p)
                        <==> self@.contains_key(p) by {
                    if done <= p < end && self@.contains_key(p) {
                        assert(self.covered(p));
                        let o = choose|o: int|
                            0 <= o < self.list@.len() && (#[trigger] self.list@[o]).covers(p);
                        if o < i {
                            assert(self.list@[o].end() <= start);
                        } else if o > i {
                            assert(self.list@[i as int].end() <= self.list@[o].start);
                        }
                    }
                }
            }
        }
    }

    /// Puts a block in. What it overlaps is replaced.
    pub fn insert(&mut self, start: usize, bytes: Bytes)
        requires
            old(self).wf(),
            start + contents(bytes).len() <= usize::MAX,
        ensures
            final(self).wf(),
            final(self)@ == written(old(self)@, start as int, contents(bytes)),
            forall|p: int| #[trigger]
                final(self).reach(p) == reach_after_write(
                    old(self).reach(p),
                    p,
                    start as int,
                    start + contents(bytes).len(),
                ),
    {
        let ghost all = self@;
        let len: usize = bytes.len();
        if len == 0 {
            assert(written(all, start as int, contents(bytes)) =~= all);
            return;
        }
        let end: usize = start + len;
        self.clear_range(start, end);
        let i: usize = self.before(start);
        let ghost before = *self;
        self.list.insert(i, Block { start, bytes });
        proof {
            self.cells = Ghost(written(all, start as int, contents(bytes)));
            let now = self.list@;
            let was = before.list@;
            assert forall|j: int| 0 <= j < was.len() implies (#[trigger] was[j]).end() <= start
                || was[j].start >= end by {
                if was[j].start < end && was[j].end() > start {
                    let p = if was[j].start < start {
                        start as int
                    } else {
                        was[j].start as int
                    };
                    assert(was[j].covers(p));
                    assert(before@.contains_key(p));
                }
            }
            assert forall|j: int| 0 <= j < now.len() && j != i implies (#[trigger] now[j])
                == was[if j < i {
                j
            } else {
                j - 1
            }] by {}
            assert(now[i as int].start == start && now[i as int].end() == end);
            assert forall|x: int, y: int| 0 <= x < y < now.len() implies (#[trigger] now[x]).end()
                <= (#[trigger] now[y]).start by {
                let ox = if x < i {
                    x
                } else {
                    x - 1
                };
                let oy = if y < i {
                    y
                } else {
                    y - 1
                };
                if x != i && y != i {
                    assert(was[ox].end() <= was[oy].start);
                } else if x == i {
                    assert(was[oy].start >= start);
                } else {
                    assert(was[ox].start < start);
                }
            }
            assert forall|j: int, p: int|
                0 <= j < now.len() && #[trigger] now[j].covers(p) implies self@.contains_key(p)
                && self@[p] == now[j].at(p) by {
                if j != i {
                    let o = if j < i {
                        j
                    } else {
                        j - 1
                    };
                    assert(was[o].covers(p));
                    assert(before@.contains_key(p));
                }
            }
            assert forall|p: int| #[trigger] self@.contains_key(p) implies self.covered(p) by {
                if start <= p < end {
                    assert(now[i as int].covers(p));
                } else {
                    assert(before@.contains_key(p));
                    assert(before.covered(p));
                    let o = choose|o: int| 0 <= o < was.len() && (#[trigger] was[o]).covers(p);
                    assert(now[if o < i {
                        o
                    } else {
                        o + 1
                    }].covers(p));
                }
            }
            assert forall|p: int| #[trigger] self.reach(p) == reach_after_write(
                old(self).reach(p),
                p,
                start as int,
                end as int,
            ) by {
                if start <= p < end {
                    self.lemma_reach_of(i as int, p);
                } else {
                    assert(before.reach(p) == reach_after_clear(
                        old(self).reach(p),
                        p,
                        start as int,
                        end as int,
                    ));
                    assert(self.reach(p) == before.reach(p)) by {
                        if before.covered(p) {
                            let o = before.lemma_covered_reach(p);
                            let j = if o < i {
                                o
                            } else {
                                o + 1
                            };
                            assert(now[j].covers(p));
                            self.lemma_reach_of(j, p);
                        } else if self.covered(p) {
                            let j = self.lemma_covered_reach(p);
                            assert(was[if j < i {
                                j
                            } else {
                                j - 1
                            }].covers(p));
                        }
                    }
                }
            }
        }
    }

    /// Where the block that covers a position ends, or the position itself if
    /// there is no byte.
    pub closed spec fn reach(self, p: int) -> int {
        if self.covered(p) {
            let i = choose|i: int|
                0 <= i < self.list@.len() && (#[trigger] self.list@[i]).covers(p);
            self.list@[i].end()
        } else {
            p
        }
    }

    /// What `reach` spans has bytes.
    pub proof fn lemma_reach(self, p: int)
        requires
            self.wf(),
        ensures
            p <= self.reach(p),
            self@.contains_key(p) <==> p < self.reach(p),
            p < self.reach(p) ==> self.reach(p) <= usize::MAX,
            forall|q: int| p <= q < self.reach(p) ==> #[trigger] self@.contains_key(q),
    {
        if self.covered(p) {
            let i = choose|i: int|
                0 <= i < self.list@.len() && (#[trigger] self.list@[i]).covers(p);
            assert forall|q: int| p <= q < self.reach(p) implies #[trigger] self@.contains_key(
                q,
            ) by {
                assert(self.list@[i].covers(q));
            }
        }
    }

    /// The block that covers a position.
    fn find(&self, at: usize) -> (r: usize)
        requires
            self.wf(),
            self@.contains_key(at as int),
        ensures
            r < self.list@.len(),
            self.list@[r as int].covers(at as int),
            self.list@[r as int].end() == self.reach(at as int),
    {
        proof {
            assert(self.covered(at as int));
        }
        let ghost o = choose|o: int|
            0 <= o < self.list@.len() && (#[trigger] self.list@[o]).covers(at as int);
        let i: usize = self.before(at);
        if i < self.list.len() && self.list[i].start == at {
            proof {
                assert(self.list@[i as int].covers(at as int));
                if o < i {
                    assert(self.list@[o].end() <= self.list@[i as int].start);
                } else if o > i {
                    assert(self.list@[i as int].end() <= self.list@[o].start);
                }
            }
            return i;
        }
        proof {
            if o >= i {
                assert(self.list@[o].start >= at);
                if o > i {
                    assert(self.list@[i as int].end() <= self.list@[o].start);
                }
            }
            if o < i - 1 {
                assert(self.list@[o].end() <= self.list@[i - 1].start);
            }
        }
        i - 1
    }

    /// The bytes from a position on that stand in one block, at most `limit`.
    pub fn part(&self, at: usize, limit: usize) -> (r: &[u8])
        requires
            self.wf(),
            self@.contains_key(at as int),
        ensures
            r@.len() == if self.reach(at as int) - at < limit {
                self.reach(at as int) - at
            } else {
                limit as int
            },
            forall|k: int|
                0 <= k < r@.len() ==> #[trigger] self@.contains_key(at + k) && r@[k] == self@[at
                    + k],
    {
        let i: usize = self.find(at);
        let local: usize = at - self.list[i].start;
        let bytes = as_slice(&self.list[i].bytes);
        let count: usize = if bytes.len() - local < limit {
            bytes.len() - local
        } else {
            limit
        };
        let r = slice_subrange(bytes, local, local + count);
        proof {
            assert forall|k: int| 0 <= k < r@.len() implies #[trigger] self@.contains_key(at + k)
                && r@[k] == self@[at + k] by {
                assert(self.list@[i as int].covers(at + k));
            }
        }
        r
    }

    /// The bytes from a position on that stand in one block, at most `limit`, as
    /// a view of that block.
    pub fn view_part(&self, at: usize, limit: usize) -> (r: Bytes)
        requires
            self.wf(),
            self@.contains_key(at as int),
        ensures
            contents(r).len() == if self.reach(at as int) - at < limit {
                self.reach(at as int) - at
            } else {
                limit as int
            },
            forall|k: int|
                0 <= k < contents(r).len() ==> #[trigger] self@.contains_key(at + k) && contents(
                    r,
                )[k] == self@[at + k],
    {
        let i: usize = self.find(at);
        let local: usize = at - self.list[i].start;
        let len: usize = self.list[i].bytes.len();
        let count: usize = if len - local < limit {
            len - local
        } else {
            limit
        };
        let r = shared::slice(&self.list[i].bytes, local, local + count);
        proof {
            assert forall|k: int| 0 <= k < contents(r).len() implies #[trigger] self@.contains_key(
                at + k,
            ) && contents(r)[k] == self@[at + k] by {
                assert(self.list@[i as int].covers(at + k));
            }
        }
        r
    }

    /// Where each block stands: its position and its length, in order.
    pub fn layout(&self) -> (r: Vec<(usize, usize)>)
        requires
            self.wf(),
        ensures
            forall|p: int| #[trigger]
                self@.contains_key(p) <==> exists|i: int|
                    0 <= i < r@.len() && (#[trigger] r@[i]).0 <= p < r@[i].0 + r@[i].1,
            forall|i: int, j: int|
                0 <= i < j < r@.len() ==> (#[trigger] r@[i]).0 + r@[i].1 <= (#[trigger] r@[j]).0,
            forall|i: int| 0 <= i < r@.len() ==> (#[trigger] r@[i]).1 > 0,
    {
        let mut r: Vec<(usize, usize)> = Vec::new();
        let mut i: usize = 0;
        while i < self.list.len()
            invariant
                i <= self.list@.len(),
                r@.len() == i,
                forall|j: int|
                    0 <= j < i ==> (#[trigger] r@[j]).0 == self.list@[j].start && r@[j].0 + r@[j].1
                        == self.list@[j].end(),
            decreases self.list@.len() - i,
        {
            r.push((self.list[i].start, self.list[i].bytes.len()));
            i = i + 1;
        }
        proof {
            assert forall|p: int| #[trigger] self@.contains_key(p) <==> exists|j: int|
                0 <= j < r@.len() && (#[trigger] r@[j]).0 <= p < r@[j].0 + r@[j].1 by {
                if self@.contains_key(p) {
                    assert(self.covered(p));
                    let o = choose|o: int|
                        0 <= o < self.list@.len() && (#[trigger] self.list@[o]).covers(p);
                    assert(r@[o].0 <= p < r@[o].0 + r@[o].1);
                }
                if exists|j: int| 0 <= j < r@.len() && (#[trigger] r@[j]).0 <= p < r@[j].0 + r@[j].1 {
                    let j = choose|j: int|
                        0 <= j < r@.len() && (#[trigger] r@[j]).0 <= p < r@[j].0 + r@[j].1;
                    assert(self.list@[j].covers(p));
                }
            }
            assert forall|x: int, y: int| 0 <= x < y < r@.len() implies (#[trigger] r@[x]).0
                + r@[x].1 <= (#[trigger] r@[y]).0 by {
                assert(self.list@[x].end() <= self.list@[y].start);
            }
            assert forall|j: int| 0 <= j < r@.len() implies (#[trigger] r@[j]).1 > 0 by {
                assert(self.list@[j].start < self.list@[j].end());
            }
        }
        r
    }
}

/// Blocks never overlap: one that was put somewhere ends where it was put to, those before
/// it end before it starts, and those behind it stay as they were. Where a range is cleared,
/// nothing of it is left in any block.
pub proof fn law_blocks_end_where_others_start(reach: int, p: int, start: int, end: int)
    requires
        start < end,
        p < reach,
    ensures
        start <= p < end ==> reach_after_write(reach, p, start, end) == end,
        p < start ==> p < reach_after_write(reach, p, start, end) <= start
            || reach_after_write(reach, p, start, end) == reach && reach <= start,
        p >= end ==> reach_after_write(reach, p, start, end) == reach
            && reach_after_clear(reach, p, start, end) == reach,
        start <= p < end ==> reach_after_clear(reach, p, start, end) == p,
        p < start ==> p < reach_after_clear(reach, p, start, end) <= start,
{
}

} // verus!
