//! Which bytes of a datagram have arrived.
use smoltcp::storage::Assembler;
use vstd::prelude::*;

verus! {

/// `smoltcp::storage::Assembler`: a few disjoint runs of positions.
#[verifier::external_type_specification]
#[verifier::external_body]
pub struct ExAssembler(smoltcp::storage::Assembler);

/// The positions that an assembler has recorded.
pub uninterp spec fn covered(ranges: Assembler) -> Set<int>;

/// The positions from `start` up to `end`.
pub open spec fn span(start: int, end: int) -> Set<int> {
    Set::new(|p: int| start <= p < end)
}

/// A position of the set lies in the span or next to it.
pub open spec fn touches(s: Set<int>, start: int, end: int) -> bool {
    exists|p: int| start - 1 <= p <= end && s.contains(p)
}

/// How many unbroken runs the positions of a set form: as many as have a first
/// position.
pub open spec fn runs(s: Set<int>) -> int {
    s.filter(|p: int| !s.contains(p - 1)).len() as int
}

/// How many runs an assembler keeps apart.
pub const MAX_RUNS: usize = 4;

/// Whether an assembler that has recorded `s` can record the span as well: it
/// joins a run, or there is room for one more.
pub open spec fn recordable(s: Set<int>, start: int, end: int) -> bool {
    start == end || touches(s, start, end) || runs(s) < MAX_RUNS
}

/// `Assembler::new`: nothing is recorded.
pub assume_specification[ smoltcp::storage::Assembler::new ]() -> (r: Assembler)
    ensures
        covered(r) == Set::<int>::empty(),
;

/// `Assembler::clear`: nothing is recorded any more.
pub assume_specification[ smoltcp::storage::Assembler::clear ](ranges: &mut Assembler)
    ensures
        covered(*final(ranges)) == Set::<int>::empty(),
;

/// `Assembler::peek_front`: the length of the run that starts at zero.
pub assume_specification[ smoltcp::storage::Assembler::peek_front ](ranges: &Assembler) -> (r: usize)
    ensures
        forall|p: int| 0 <= p < r ==> covered(*ranges).contains(p),
        !covered(*ranges).contains(r as int),
;

/// `Assembler::add`: records a span. It fails, and records nothing, when the span
/// joins no run and the assembler, as it is built by default, has no room for a
/// fifth.
#[verifier::external_body]
pub(crate) fn record(ranges: &mut Assembler, offset: usize, size: usize) -> (r: bool)
    requires
        offset + size <= usize::MAX,
        covered(*old(ranges)).subset_of(span(0, usize::MAX as int)),
    ensures
        r == recordable(covered(*old(ranges)), offset as int, offset + size),
        r ==> covered(*final(ranges)) == covered(*old(ranges)).union(
            span(offset as int, offset + size),
        ),
        !r ==> covered(*final(ranges)) == covered(*old(ranges)),
{
    ranges.add(offset, size).is_ok()
}

/// `Assembler::iter_data`: the bounds of every run.
#[verifier::external_body]
pub(crate) fn bounds(ranges: &Assembler) -> (r: Vec<(usize, usize)>)
    ensures
        forall|p: int|
            #[trigger] covered(*ranges).contains(p) <==> exists|i: int|
                0 <= i < r@.len() && (#[trigger] r@[i]).0 <= p < r@[i].1,
{
    ranges.iter_data().collect()
}

/// Some position of the set lies in the span.
pub open spec fn overlaps(s: Set<int>, start: int, end: int) -> bool {
    exists|p: int| start <= p < end && s.contains(p)
}

/// Whether anything in the span has been recorded.
pub fn overlapping(ranges: &Assembler, start: usize, end: usize) -> (r: bool)
    ensures
        r == overlaps(covered(*ranges), start as int, end as int),
{
    let found = bounds(ranges);
    let mut i: usize = 0;
    while i < found.len()
        invariant
            i <= found@.len(),
            forall|p: int|
                #[trigger] covered(*ranges).contains(p) <==> exists|j: int|
                    0 <= j < found@.len() && (#[trigger] found@[j]).0 <= p < found@[j].1,
            forall|j: int|
                0 <= j < i ==> !((#[trigger] found@[j]).0 < end && found@[j].1 > start && start
                    < end && found@[j].0 < found@[j].1),
        decreases found@.len() - i,
    {
        let (first, last) = found[i];
        if first < end && last > start && start < end && first < last {
            proof {
                let p: int = if first < start {
                    start as int
                } else {
                    first as int
                };
                assert(found@[i as int].0 <= p < found@[i as int].1);
                assert(covered(*ranges).contains(p));
            }
            return true;
        }
        i = i + 1;
    }
    assert forall|p: int| start <= p < end implies !covered(*ranges).contains(p) by {
        if covered(*ranges).contains(p) {
            let j = choose|j: int|
                0 <= j < found@.len() && (#[trigger] found@[j]).0 <= p < found@[j].1;
            assert(found@[j].0 < end);
        }
    }
    false
}

} // verus!
