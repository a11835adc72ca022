//! Binds IP datagrams to their transport worker when the fragment at offset zero
//! arrives. Earlier fragments keep their receive blocks under the shared budget.
use crate::decoder::{Binding, REASSEMBLY_LIFETIME};
use crate::endpoint::Received;
use crate::holders::{left, Holders};
use crate::index;
use crate::index::{lemma_numbers_differ, mapping, numbers, spec_numbers, KeyNumbers};
use crate::packet::FragmentKey;
use crate::reassembly::{Lease, Limits};
use crate::shared::contents;
use crate::sums::{lemma_map_sum_bounds, lemma_map_sum_insert, lemma_map_sum_remove, map_sum};
use ahash::AHashMap;
use vstd::prelude::*;

verus! {

/// What a route counts for besides the frames that it keeps.
pub const ENTRY_BYTES: usize = 256;

/// What a kept frame counts for besides its block.
pub const RECEIVED_BYTES: usize = 48;

/// Frames that came before the one that names their owner. Their share of the
/// allowance follows the batch.
pub struct Pending {
    pub frames: Vec<Received>,
    retained: usize,
    lease: Lease,
}

/// The mathematical content of a batch: its frames, and the sizes of their blocks
/// together.
pub struct PendingView {
    pub frames: Seq<Received>,
    pub retained: nat,
}

impl View for Pending {
    type V = PendingView;

    closed spec fn view(&self) -> PendingView {
        PendingView { frames: self.frames@, retained: self.retained as nat }
    }
}

impl PendingView {
    /// What the batch holds of the allowance.
    pub open spec fn cost(self) -> int {
        self.retained + self.frames.len() * RECEIVED_BYTES
    }

    /// The batch with one more frame.
    pub open spec fn push(self, frame: Received) -> PendingView {
        PendingView {
            frames: self.frames.push(frame),
            retained: self.retained + frame.allocation_size as nat,
        }
    }
}

/// The bytes of some frames together.
pub open spec fn frame_bytes(frames: Seq<Received>) -> int
    decreases frames.len(),
{
    if frames.len() == 0 {
        0
    } else {
        frame_bytes(frames.drop_last()) + contents(frames.last().bytes).len()
    }
}

impl Pending {
    /// The share covers the blocks and their descriptors, and the blocks cover
    /// the frames.
    pub closed spec fn wf(self) -> bool {
        &&& self.lease.bytes == self@.cost()
        &&& frame_bytes(self.frames@) <= self.retained
    }

    fn new() -> (r: Pending)
        ensures
            r.wf(),
            r@ == (PendingView { frames: Seq::empty(), retained: 0 }),
    {
        let r = Pending { frames: Vec::new(), retained: 0, lease: Lease { bytes: 0 } };
        assert(r@.frames =~= Seq::empty());
        r
    }

    /// Keeps one more frame, if the allowance has room for its block.
    fn push(&mut self, limits: &mut Limits, frame: Received) -> (r: bool)
        requires
            old(self).wf(),
            old(self)@.cost() <= old(limits).used,
            contents(frame.bytes).len() <= frame.allocation_size,
        ensures
            final(self).wf(),
            r == old(limits).admits(old(self)@.cost(), old(self)@.push(frame).cost()),
            r ==> final(self)@ == old(self)@.push(frame) && *final(limits) == old(limits).after(
                old(self)@.cost(),
                final(self)@.cost(),
            ),
            !r ==> final(self)@ == old(self)@ && *final(limits) == *old(limits),
    {
        let retained: usize = match self.retained.checked_add(frame.allocation_size) {
            Some(retained) => retained,
            None => {
                return false;
            },
        };
        let bytes: usize = match self.lease.bytes.checked_add(frame.allocation_size) {
            Some(bytes) => bytes,
            None => {
                return false;
            },
        };
        let bytes: usize = match bytes.checked_add(RECEIVED_BYTES) {
            Some(bytes) => bytes,
            None => {
                return false;
            },
        };
        proof {
            assert(bytes == self@.push(frame).cost());
        }
        if !limits.resize(&mut self.lease, bytes) {
            return false;
        }
        self.retained = retained;
        let ghost before = self.frames@;
        self.frames.push(frame);
        assert(self.frames@.drop_last() =~= before);
        true
    }

    /// What the batch counts for in a queue: its bytes and its descriptors.
    pub fn size(&self) -> (r: usize)
        requires
            self.wf(),
        ensures
            r == frame_bytes(self@.frames) + self@.frames.len() * RECEIVED_BYTES,
    {
        let mut i: usize = 0;
        let mut sum: usize = 0;
        assert(self.frames@.take(0) =~= Seq::<Received>::empty());
        while i < self.frames.len()
            invariant
                self.wf(),
                i <= self.frames@.len(),
                sum == frame_bytes(self.frames@.take(i as int)),
            decreases self.frames@.len() - i,
        {
            proof {
                assert(self.frames@.take(i as int + 1).drop_last() =~= self.frames@.take(i as int));
                lemma_frame_bytes_take(self.frames@, i as int + 1);
            }
            sum = sum + self.frames[i].bytes.len();
            i = i + 1;
        }
        assert(self.frames@.take(i as int) =~= self.frames@);
        assert(self.frames@.len() * RECEIVED_BYTES <= self.lease.bytes);
        sum + self.frames.len() * RECEIVED_BYTES
    }

    /// Gives the batch's share back, once its frames have been consumed.
    pub fn release(self, limits: &mut Limits)
        requires
            self.wf(),
            self@.cost() <= old(limits).used,
        ensures
            *final(limits) == old(limits).after(self@.cost(), 0),
    {
        limits.release(self.lease);
    }
}

/// Some of the frames have no more bytes than all of them.
proof fn lemma_frame_bytes_take(frames: Seq<Received>, n: int)
    requires
        0 <= n <= frames.len(),
    ensures
        0 <= frame_bytes(frames.take(n)) <= frame_bytes(frames),
    decreases frames.len(),
{
    if n == frames.len() {
        assert(frames.take(n) =~= frames);
        if n > 0 {
            lemma_frame_bytes_take(frames.drop_last(), n - 1);
            assert(frames.drop_last().take(n - 1) =~= frames.drop_last());
        }
    } else {
        lemma_frame_bytes_take(frames.drop_last(), n);
        assert(frames.drop_last().take(n) =~= frames.take(n));
    }
}

/// A fragment that has an owner, with the frames that waited for it.
pub struct Delivery {
    pub owner: usize,
    pub binding: Binding,
    pub frame: Received,
    pub pending: Option<Pending>,
}

impl Delivery {
    pub open spec fn wf(self) -> bool {
        self.pending matches Some(pending) ==> pending.wf()
    }

    pub open spec fn spec_size(self) -> int {
        contents(self.frame.bytes).len() + match self.pending {
            Some(pending) => frame_bytes(pending@.frames) + pending@.frames.len() * RECEIVED_BYTES,
            None => 0,
        }
    }

    /// What the delivery counts for in a queue.
    pub fn size(&self) -> (r: usize)
        requires
            self.wf(),
            self.spec_size() <= usize::MAX,
        ensures
            r == self.spec_size(),
    {
        let waiting: usize = match &self.pending {
            Some(pending) => pending.size(),
            None => 0,
        };
        self.frame.bytes.len() + waiting
    }
}

/// The route of a fragmented datagram. `holders` counts the deliveries of its binding
/// that are on their way.
pub struct Entry {
    binding: Binding,
    owner: Option<usize>,
    pending: Option<Pending>,
    holders: u64,
    lease: Lease,
}

/// The mathematical content of a route: the binding that it gave out, the worker
/// that owns the datagram once that is known, the frames that wait till then, and how
/// many deliveries of the binding are on their way.
pub struct EntryView {
    pub binding: Binding,
    pub owner: Option<usize>,
    pub pending: Option<PendingView>,
    pub holders: nat,
}

impl View for Entry {
    type V = EntryView;

    closed spec fn view(&self) -> EntryView {
        EntryView {
            binding: self.binding,
            owner: self.owner,
            pending: match self.pending {
                Some(pending) => Some(pending@),
                None => None,
            },
            holders: self.holders as nat,
        }
    }
}

impl Entry {
    closed spec fn wf(self) -> bool {
        &&& self.lease.bytes == ENTRY_BYTES
        &&& self.pending matches Some(pending) ==> pending.wf()
    }
}

/// What a route holds of the allowance.
pub open spec fn entry_cost(entry: EntryView) -> int {
    ENTRY_BYTES + match entry.pending {
        Some(pending) => pending.cost(),
        None => 0,
    }
}

/// `entry_cost` as a value.
pub open spec fn cost_of_entry() -> spec_fn(EntryView) -> int {
    |e: EntryView| entry_cost(e)
}

/// The mathematical content of a shard: its routes, and for each binding whose route
/// has ended how many deliveries of it are still on their way.
#[verifier::ext_equal]
pub struct ShardView {
    pub routes: Map<FragmentKey, EntryView>,
    pub lingering: Map<u64, nat>,
}

impl ShardView {
    /// Every binding has a number of its own, and nobody has got a delivery of a route
    /// without an owner.
    pub open spec fn wf(self) -> bool {
        &&& self.routes.dom().finite()
        &&& self.lingering.dom().finite()
        &&& forall|k: FragmentKey| #[trigger]
            self.routes.contains_key(k) ==> {
                let entry = self.routes[k];
                &&& entry.binding.key == k
                &&& entry.owner is None ==> entry.holders == 0
                &&& entry.pending is Some ==> entry.owner is None
                &&& !self.lingering.contains_key(entry.binding.number)
            }
        &&& forall|j: FragmentKey, k: FragmentKey|
            #![trigger self.routes.contains_key(j), self.routes.contains_key(k)]
            self.routes.contains_key(j) && self.routes.contains_key(k) && j != k
                ==> self.routes[j].binding.number != self.routes[k].binding.number
        &&& forall|n: u64| #[trigger] self.lingering.contains_key(n) ==> self.lingering[n] > 0
    }

    /// All numbers of bindings are below the next one.
    pub open spec fn numbered(self, issued: u64) -> bool {
        &&& forall|k: FragmentKey| #[trigger]
            self.routes.contains_key(k) ==> self.routes[k].binding.number < issued
        &&& forall|n: u64| #[trigger] self.lingering.contains_key(n) ==> n < issued
    }

    /// No more deliveries are on their way than were made.
    pub open spec fn counted(self, delivered: u64) -> bool {
        forall|k: FragmentKey| #[trigger]
            self.routes.contains_key(k) ==> self.routes[k].holders <= delivered
    }

    /// A route that has given out a binding and nothing more is new.
    pub open spec fn opened(self, binding: Binding) -> ShardView {
        ShardView { routes: self.routes.insert(binding.key, opened(binding)), ..self }
    }

    /// A route has ended. Its binding lingers as long as deliveries of it do.
    pub open spec fn without(self, key: FragmentKey) -> ShardView {
        let entry = self.routes[key];
        ShardView {
            routes: self.routes.remove(key),
            lingering: if entry.holders > 0 {
                self.lingering.insert(entry.binding.number, entry.holders)
            } else {
                self.lingering
            },
        }
    }
}

/// What a shard holds of the allowance: the shares of its routes, and those of the
/// bindings that linger.
pub open spec fn leased(v: ShardView) -> int {
    map_sum(v.routes, cost_of_entry()) + v.lingering.dom().len() * ENTRY_BYTES
}

/// A route with this binding has ended while deliveries were on their way.
pub open spec fn leaves(
    v: ShardView,
    rest: Map<FragmentKey, EntryView>,
    k: FragmentKey,
    n: u64,
) -> bool {
    &&& v.routes.contains_key(k)
    &&& !rest.contains_key(k)
    &&& v.routes[k].binding.number == n
    &&& v.routes[k].holders > 0
}

/// The bindings that linger once only the routes of `rest` are left.
pub open spec fn ended(v: ShardView, rest: Map<FragmentKey, EntryView>) -> Map<u64, nat> {
    Map::new(
        |n: u64|
            v.lingering.contains_key(n) || exists|k: FragmentKey| #[trigger] leaves(v, rest, k, n),
        |n: u64|
            if v.lingering.contains_key(n) {
                v.lingering[n]
            } else {
                v.routes[choose|k: FragmentKey| #[trigger] leaves(v, rest, k, n)].holders
            },
    )
}

/// The shard once the routes whose time is over have ended.
pub open spec fn live(v: ShardView, now: u64) -> ShardView {
    let rest = v.routes.restrict(
        v.routes.dom().filter(|k: FragmentKey| v.routes[k].binding.expires > now),
    );
    ShardView { routes: rest, lingering: ended(v, rest) }
}

/// One more route has ended.
proof fn lemma_ended_step(v: ShardView, rest: Map<FragmentKey, EntryView>, k: FragmentKey)
    requires
        v.wf(),
        rest.contains_key(k),
        forall|j: FragmentKey| #[trigger]
            rest.contains_key(j) ==> v.routes.contains_key(j) && v.routes[j] == rest[j],
    ensures
        ended(v, rest.remove(k)) == (if v.routes[k].holders > 0 {
            ended(v, rest).insert(v.routes[k].binding.number, v.routes[k].holders)
        } else {
            ended(v, rest)
        }),
        !ended(v, rest).contains_key(v.routes[k].binding.number),
{
    let fewer = rest.remove(k);
    let number = v.routes[k].binding.number;
    assert(v.routes.contains_key(k));
    assert(!ended(v, rest).contains_key(number)) by {
        if exists|j: FragmentKey| #[trigger] leaves(v, rest, j, number) {
            let j = choose|j: FragmentKey| #[trigger] leaves(v, rest, j, number);
            assert(v.routes.contains_key(j));
        }
    }
    assert forall|n: u64| #[trigger] ended(v, fewer).contains_key(n) <==> (ended(
        v,
        rest,
    ).contains_key(n) || (n == number && v.routes[k].holders > 0)) by {
        if exists|j: FragmentKey| #[trigger] leaves(v, fewer, j, n) {
            let j = choose|j: FragmentKey| #[trigger] leaves(v, fewer, j, n);
            if j != k {
                assert(leaves(v, rest, j, n));
            }
        }
        if exists|j: FragmentKey| #[trigger] leaves(v, rest, j, n) {
            let j = choose|j: FragmentKey| #[trigger] leaves(v, rest, j, n);
            assert(leaves(v, fewer, j, n));
        }
        if v.routes[k].holders > 0 {
            assert(leaves(v, fewer, k, number));
        }
    }
    assert forall|n: u64| #[trigger] ended(v, fewer).contains_key(n) implies ended(v, fewer)[n]
        == (if n == number {
        v.routes[k].holders
    } else {
        ended(v, rest)[n]
    }) by {
        if !v.lingering.contains_key(n) {
            let j = choose|j: FragmentKey| #[trigger] leaves(v, fewer, j, n);
            assert(leaves(v, fewer, j, n));
            assert(v.routes.contains_key(j));
            if n == number {
                assert(j == k);
            } else {
                assert(leaves(v, rest, j, n));
                let i = choose|i: FragmentKey| #[trigger] leaves(v, rest, i, n);
                assert(leaves(v, rest, i, n));
                assert(v.routes.contains_key(i));
                assert(i == j);
            }
        }
    }
    assert(ended(v, fewer) =~= (if v.routes[k].holders > 0 {
        ended(v, rest).insert(number, v.routes[k].holders)
    } else {
        ended(v, rest)
    }));
}

/// While no route has ended, nothing more lingers.
proof fn lemma_none_ended(v: ShardView)
    ensures
        ended(v, v.routes) == v.lingering,
{
    assert(ended(v, v.routes) =~= v.lingering);
}

/// What a shard holds is never negative, and no less than what one route holds.
proof fn lemma_cost_bounds(v: ShardView)
    requires
        v.routes.dom().finite(),
    ensures
        leased(v) >= 0,
        forall|k: FragmentKey| #[trigger]
            v.routes.contains_key(k) ==> entry_cost(v.routes[k]) <= leased(v),
{
    lemma_map_sum_bounds(v.routes, cost_of_entry());
    assert forall|k: FragmentKey| #[trigger] v.routes.contains_key(k) implies entry_cost(
        v.routes[k],
    ) <= leased(v) by {
        assert(cost_of_entry()(v.routes[k]) == entry_cost(v.routes[k]));
    }
}

/// The end of a route frees what it holds, but for the share of a binding that
/// lingers.
proof fn lemma_without(v: ShardView, key: FragmentKey)
    requires
        v.wf(),
        v.routes.contains_key(key),
    ensures
        v.without(key).wf(),
        forall|issued: u64|
            v.numbered(issued) ==> #[trigger] v.without(key).numbered(issued),
        forall|delivered: u64|
            v.counted(delivered) ==> #[trigger] v.without(key).counted(delivered),
        leased(v.without(key)) == leased(v) - entry_cost(v.routes[key]) + (if v.routes[key].holders
            > 0 {
            ENTRY_BYTES as int
        } else {
            0
        }),
        0 <= leased(v.without(key)) <= leased(v),
        0 <= entry_cost(v.routes[key]) <= leased(v),
{
    let w = v.without(key);
    lemma_map_sum_remove(v.routes, cost_of_entry(), key);
    lemma_cost_bounds(v);
    assert(w.routes.dom() =~= v.routes.dom().remove(key));
    if v.routes[key].holders > 0 {
        assert(w.lingering.dom() =~= v.lingering.dom().insert(v.routes[key].binding.number));
    }
    assert forall|k: FragmentKey| #[trigger] w.routes.contains_key(k) implies {
        let entry = w.routes[k];
        &&& entry.binding.key == k
        &&& entry.owner is None ==> entry.holders == 0
        &&& entry.pending is Some ==> entry.owner is None
        &&& !w.lingering.contains_key(entry.binding.number)
    } by {
        assert(v.routes.contains_key(k));
        assert(v.routes.contains_key(key));
    }
    assert forall|j: FragmentKey, k: FragmentKey|
        #![trigger w.routes.contains_key(j), w.routes.contains_key(k)]
        w.routes.contains_key(j) && w.routes.contains_key(k) && j
            != k implies w.routes[j].binding.number != w.routes[k].binding.number by {
        assert(v.routes.contains_key(j));
        assert(v.routes.contains_key(k));
    }
    lemma_cost_bounds(w);
    assert forall|issued: u64| v.numbered(issued) implies #[trigger] w.numbered(issued) by {
        assert(v.routes.contains_key(key));
        assert forall|k: FragmentKey| #[trigger] w.routes.contains_key(k) implies w.routes[k].binding.number
            < issued by {
            assert(v.routes.contains_key(k));
        }
    }
    assert forall|delivered: u64| v.counted(delivered) implies #[trigger] w.counted(delivered) by {
        assert forall|k: FragmentKey| #[trigger] w.routes.contains_key(k) implies w.routes[k].holders
            <= delivered by {
            assert(v.routes.contains_key(k));
        }
    }
}

/// A route has changed, or is new: what the shard holds changes with it.
proof fn lemma_changed_view(v: ShardView, key: FragmentKey, entry: EntryView)
    requires
        v.wf(),
        entry.binding.key == key,
        entry.owner is None ==> entry.holders == 0,
        entry.pending is Some ==> entry.owner is None,
        !v.lingering.contains_key(entry.binding.number),
        if v.routes.contains_key(key) {
            entry.binding == v.routes[key].binding
        } else {
            forall|k: FragmentKey| #[trigger]
                v.routes.contains_key(k) ==> v.routes[k].binding.number != entry.binding.number
        },
    ensures
        ({
            let w = ShardView { routes: v.routes.insert(key, entry), ..v };
            &&& w.wf()
            &&& leased(w) == leased(v) + entry_cost(entry) - (if v.routes.contains_key(key) {
                entry_cost(v.routes[key])
            } else {
                0
            })
        }),
{
    let w = ShardView { routes: v.routes.insert(key, entry), ..v };
    lemma_map_sum_insert(v.routes, cost_of_entry(), key, entry);
    assert(w.routes.dom() =~= v.routes.dom().insert(key));
    assert forall|k: FragmentKey| #[trigger] w.routes.contains_key(k) implies {
        let e = w.routes[k];
        &&& e.binding.key == k
        &&& e.owner is None ==> e.holders == 0
        &&& e.pending is Some ==> e.owner is None
        &&& !w.lingering.contains_key(e.binding.number)
    } by {
        if k != key {
            assert(v.routes.contains_key(k));
        }
    }
    assert forall|j: FragmentKey, k: FragmentKey|
        #![trigger w.routes.contains_key(j), w.routes.contains_key(k)]
        w.routes.contains_key(j) && w.routes.contains_key(k) && j
            != k implies w.routes[j].binding.number != w.routes[k].binding.number by {
        if j != key {
            assert(v.routes.contains_key(j));
        }
        if k != key {
            assert(v.routes.contains_key(k));
        }
        if v.routes.contains_key(key) {
            assert(v.routes[key].binding == entry.binding);
        }
    }
}

/// The routes that one lock protects.
pub struct Shard {
    index: AHashMap<KeyNumbers, usize>,
    entries: Vec<Entry>,
    lingering: Holders,
    next_expiry: Option<u64>,
    issued: u64,
    delivered: u64,
    routes: Ghost<Map<FragmentKey, EntryView>>,
}

impl View for Shard {
    type V = ShardView;

    closed spec fn view(&self) -> ShardView {
        ShardView { routes: self.routes@, lingering: self.lingering@ }
    }
}

impl Shard {
    /// Entry `i` is the route of its key.
    spec fn placed(self, i: int) -> bool {
        let key = self.entries@[i].binding.key;
        &&& self.routes@.contains_key(key)
        &&& self.routes@[key] == self.entries@[i]@
        &&& mapping(self.index).contains_key(spec_numbers(key))
        &&& mapping(self.index)[spec_numbers(key)] == i
        &&& self.entries@[i].wf()
    }

    /// A key has a route exactly if the index knows it, and the index points to
    /// its entry.
    spec fn indexed(self, key: FragmentKey) -> bool {
        &&& self.routes@.contains_key(key) <==> mapping(self.index).contains_key(spec_numbers(key))
        &&& self.routes@.contains_key(key) ==> {
            let i = mapping(self.index)[spec_numbers(key)];
            &&& i < self.entries@.len()
            &&& self.entries@[i as int].binding.key == key
        }
    }

    /// Index, entries and routes agree; every binding has a number that was given
    /// out, and no route expires before the next expiry.
    pub closed spec fn wf(self) -> bool {
        &&& self@.wf()
        &&& self.lingering.wf()
        &&& self@.numbered(self.issued)
        &&& self@.counted(self.delivered)
        &&& forall|i: int| 0 <= i < self.entries@.len() ==> #[trigger] self.placed(i)
        &&& forall|key: FragmentKey| #[trigger] self.indexed(key)
        &&& forall|key: FragmentKey|
            #[trigger] self.routes@.contains_key(key) ==> (self.next_expiry matches Some(at) && at
                <= self.routes@[key].binding.expires)
    }

    /// How many bindings have been given out. The next one has this number.
    pub closed spec fn spec_issued(self) -> u64 {
        self.issued
    }

    /// How many deliveries have been made.
    pub closed spec fn spec_delivered(self) -> u64 {
        self.delivered
    }

    /// When the routes have to be looked at again.
    pub closed spec fn spec_next_expiry(self) -> Option<u64> {
        self.next_expiry
    }

    /// Every binding has a number of its own, below the next one.
    pub proof fn lemma_numbers(&self)
        requires
            self.wf(),
        ensures
            self@.wf(),
            self@.numbered(self.spec_issued()),
    {
    }

    pub fn new() -> (r: Shard)
        ensures
            r.wf(),
            r@.routes == Map::<FragmentKey, EntryView>::empty(),
            r@.lingering == Map::<u64, nat>::empty(),
            r.spec_issued() == 0,
            r.spec_delivered() == 0,
            r.spec_next_expiry() is None,
    {
        let r = Shard {
            index: index::empty(),
            entries: Vec::new(),
            lingering: Holders::new(),
            next_expiry: None,
            issued: 0,
            delivered: 0,
            routes: Ghost(Map::empty()),
        };
        assert forall|key: FragmentKey| #[trigger] r.indexed(key) by {}
        r
    }

    pub fn next_expiry(&self) -> (r: Option<u64>)
        ensures
            r == self.spec_next_expiry(),
    {
        self.next_expiry
    }

    fn find(&self, key: &FragmentKey) -> (r: Option<usize>)
        requires
            self.wf(),
        ensures
            r is Some == self@.routes.contains_key(*key),
            r matches Some(i) ==> i < self.entries@.len() && self.entries@[i as int].binding.key
                == *key && self@.routes[*key] == self.entries@[i as int]@,
    {
        assert(self.indexed(*key));
        let r = index::get(&self.index, numbers(key));
        proof {
            if let Some(i) = r {
                assert(self.placed(i as int));
            }
        }
        r
    }

    /// Ends a route. The frames that wait give their share back; that of the route
    /// itself stays as long as deliveries of its binding are on their way.
    fn forget(&mut self, limits: &mut Limits, i: usize)
        requires
            old(self).wf(),
            i < old(self).entries@.len(),
            leased(old(self)@) <= old(limits).used,
        ensures
            final(self).wf(),
            final(self)@ == old(self)@.without(old(self).entries@[i as int].binding.key),
            final(self).entries@ == old(self).entries@.update(
                i as int,
                old(self).entries@.last(),
            ).drop_last(),
            final(self).spec_issued() == old(self).spec_issued(),
            final(self).spec_delivered() == old(self).spec_delivered(),
            final(self).spec_next_expiry() == old(self).spec_next_expiry(),
            *final(limits) == old(limits).after(leased(old(self)@), leased(final(self)@)),
            leased(final(self)@) <= final(limits).used,
            leased(final(self)@) <= leased(old(self)@),
    {
        broadcast use lemma_numbers_differ;

        let key: FragmentKey = self.entries[i].binding.key;
        let ghost before = *self;
        proof {
            assert(before.placed(i as int));
            lemma_without(before@, key);
        }
        index::remove(&mut self.index, numbers(&key));
        let gone = self.entries.swap_remove(i);
        if i < self.entries.len() {
            let moved: FragmentKey = self.entries[i].binding.key;
            index::insert(&mut self.index, numbers(&moved), i);
        }
        proof {
            self.routes = Ghost(self.routes@.remove(key));
        }
        if gone.holders > 0 {
            self.lingering.insert(gone.binding.number, gone.holders, gone.lease);
        } else {
            limits.release(gone.lease);
        }
        if let Some(pending) = gone.pending {
            limits.release(pending.lease);
        }
        proof {
            assert(self@ =~= before@.without(key));
            let last = before.entries@.len() - 1;
            assert forall|j: int| 0 <= j < self.entries@.len() implies #[trigger] self.placed(j) by {
                let k = if j == i {
                    last
                } else {
                    j
                };
                assert(before.placed(k));
                assert(self.entries@[j] == before.entries@[k]);
                assert(before.entries@[k].binding.key != key) by {
                    assert(before.placed(i as int));
                }
                if last != i {
                    assert(before.placed(last));
                }
            }
            assert forall|k: FragmentKey| #[trigger] self.indexed(k) by {
                assert(before.indexed(k));
                assert(before.placed(last));
                if k != key && before.routes@.contains_key(k) {
                    let at = mapping(before.index)[spec_numbers(k)];
                    assert(before.placed(at as int));
                }
            }
        }
    }

    /// Gives up the routes whose time is over. The next expiry moves on only when
    /// it has passed.
    pub fn expire(&mut self, limits: &mut Limits, now: u64)
        requires
            old(self).wf(),
            leased(old(self)@) <= old(limits).used,
        ensures
            final(self).wf(),
            final(self)@ == live(old(self)@, now),
            final(self).spec_issued() == old(self).spec_issued(),
            final(self).spec_delivered() == old(self).spec_delivered(),
            final(self).spec_next_expiry() == old(self).spec_next_expiry() || (old(
                self).spec_next_expiry() matches Some(at) && at <= now && is_earliest(
                final(self).spec_next_expiry(),
                final(self)@.routes,
            )),
            final(self).spec_next_expiry() matches Some(at) ==> at > now,
            *final(limits) == old(limits).after(leased(old(self)@), leased(final(self)@)),
            leased(final(self)@) <= final(limits).used,
    {
        let due: bool = match self.next_expiry {
            Some(at) => at <= now,
            None => false,
        };
        if !due {
            proof {
                assert(live(self@, now).routes =~= self@.routes);
                lemma_none_ended(self@);
                assert(live(self@, now) =~= self@);
                lemma_cost_bounds(self@);
            }
            return;
        }
        let ghost all = self@;
        let mut i: usize = 0;
        proof {
            lemma_cost_bounds(self@);
            lemma_none_ended(self@);
        }
        while i < self.entries.len()
            invariant
                self.wf(),
                i <= self.entries@.len(),
                all == old(self)@,
                all.wf(),
                self.spec_issued() == old(self).spec_issued(),
                self.spec_delivered() == old(self).spec_delivered(),
                self@.lingering == ended(all, self@.routes),
                leased(self@) <= leased(all) <= old(limits).used,
                leased(self@) <= limits.used,
                *limits == old(limits).after(leased(all), leased(self@)),
                forall|j: int| 0 <= j < i ==> (#[trigger] self.entries@[j]).binding.expires > now,
                forall|k: FragmentKey| #[trigger]
                    self@.routes.contains_key(k) ==> all.routes.contains_key(k) && all.routes[k]
                        == self@.routes[k],
                forall|k: FragmentKey| #[trigger]
                    all.routes.contains_key(k) && all.routes[k].binding.expires > now
                        ==> self@.routes.contains_key(k),
            decreases self.entries@.len() - i,
        {
            assert(self.placed(i as int));
            if self.entries[i].binding.expires > now {
                i = i + 1;
            } else {
                let ghost before = *self;
                proof {
                    lemma_ended_step(all, self@.routes, self.entries@[i as int].binding.key);
                }
                self.forget(limits, i);
                proof {
                    lemma_cost_bounds(self@);
                    lemma_cost_bounds(before@);
                    assert forall|j: int| 0 <= j < i implies (
                    #[trigger] self.entries@[j]).binding.expires > now by {
                        assert(self.entries@[j] == before.entries@[j]);
                    }
                }
            }
        }
        proof {
            assert(self@.routes =~= live(all, now).routes) by {
                assert forall|k: FragmentKey| self@.routes.contains_key(k) implies #[trigger] live(
                    all,
                    now,
                ).routes.contains_key(k) by {
                    assert(self.indexed(k));
                    let at = mapping(self.index)[spec_numbers(k)];
                    assert(self.placed(at as int));
                }
            }
            assert(self@ =~= live(all, now));
        }
        let ghost before = *self;
        self.next_expiry = self.earliest();
        proof {
            assert forall|j: int| 0 <= j < self.entries@.len() implies #[trigger] self.placed(j) by {
                assert(before.placed(j));
            }
            assert forall|k: FragmentKey| #[trigger] self.indexed(k) by {
                assert(before.indexed(k));
            }
        }
    }

    /// The earliest expiry of all routes.
    fn earliest(&self) -> (r: Option<u64>)
        requires
            forall|i: int| 0 <= i < self.entries@.len() ==> #[trigger] self.placed(i),
            forall|key: FragmentKey| #[trigger] self.indexed(key),
        ensures
            forall|key: FragmentKey|
                #[trigger] self.routes@.contains_key(key) ==> (r matches Some(at) && at
                    <= self.routes@[key].binding.expires),
            r matches Some(at) ==> exists|key: FragmentKey|
                #[trigger] self.routes@.contains_key(key) && self.routes@[key].binding.expires == at,
    {
        let mut best: Option<u64> = None;
        let mut i: usize = 0;
        while i < self.entries.len()
            invariant
                i <= self.entries@.len(),
                i > 0 ==> best is Some,
                i == 0 ==> best is None,
                best matches Some(at) ==> (exists|j: int|
                    0 <= j < i && (#[trigger] self.entries@[j]).binding.expires == at) && (forall|
                    j: int,
                |
                    0 <= j < i ==> at <= (#[trigger] self.entries@[j]).binding.expires),
            decreases self.entries@.len() - i,
        {
            let expires: u64 = self.entries[i].binding.expires;
            best = match best {
                Some(at) if at <= expires => Some(at),
                _ => Some(expires),
            };
            i = i + 1;
        }
        proof {
            assert forall|key: FragmentKey| #[trigger] self.routes@.contains_key(key) implies (
            best matches Some(at) && at <= self.routes@[key].binding.expires) by {
                assert(self.indexed(key));
                let at = mapping(self.index)[spec_numbers(key)];
                assert(self.placed(at as int));
            }
            if let Some(at) = best {
                let j = choose|j: int|
                    0 <= j < i && (#[trigger] self.entries@[j]).binding.expires == at;
                assert(self.placed(j));
                assert(self.routes@.contains_key(self.entries@[j].binding.key));
            }
        }
        best
    }

    /// Changing one entry, but for its binding, keeps the shard in order.
    proof fn lemma_changed(before: Shard, after: Shard, i: int)
        requires
            before.wf(),
            0 <= i < before.entries@.len(),
            after.entries@.len() == before.entries@.len(),
            forall|j: int|
                0 <= j < before.entries@.len() && j != i ==> #[trigger] after.entries@[j]
                    == before.entries@[j],
            after.entries@[i].binding == before.entries@[i].binding,
            after.entries@[i].wf(),
            after.entries@[i].owner is None ==> after.entries@[i].holders == 0,
            after.entries@[i].pending is Some ==> after.entries@[i].owner is None,
            after.entries@[i].holders <= after.delivered,
            after.routes@ == before.routes@.insert(
                before.entries@[i].binding.key,
                after.entries@[i]@,
            ),
            after.lingering == before.lingering,
            after.index == before.index,
            after.issued == before.issued,
            after.delivered >= before.delivered,
            after.next_expiry == before.next_expiry,
        ensures
            after.wf(),
            leased(after@) == leased(before@) - entry_cost(before.entries@[i]@) + entry_cost(
                after.entries@[i]@,
            ),
            entry_cost(before.entries@[i]@) <= leased(before@),
    {
        broadcast use lemma_numbers_differ;

        let key = before.entries@[i].binding.key;
        assert(before.placed(i));
        assert forall|j: int| 0 <= j < after.entries@.len() implies #[trigger] after.placed(j) by {
            assert(before.placed(j));
        }
        assert forall|k: FragmentKey| #[trigger] after.indexed(k) by {
            assert(before.indexed(k));
            if before.routes@.contains_key(k) {
                assert(before.placed(mapping(before.index)[spec_numbers(k)] as int));
            }
        }
        lemma_changed_view(before@, key, after.entries@[i]@);
        lemma_cost_bounds(before@);
        assert(after@ == (ShardView { routes: before@.routes.insert(key, after.entries@[i]@), ..before@
        }));
        assert forall|k: FragmentKey| #[trigger] after@.routes.contains_key(k) implies after@.routes[k].holders
            <= after.delivered && after@.routes[k].binding.number < after.issued && (
        after.next_expiry matches Some(at) && at <= after@.routes[k].binding.expires) by {
            assert(before@.routes.contains_key(k));
        }
    }

    /// Opens a route under a new binding, if the allowance has room for it.
    fn open(&mut self, limits: &mut Limits, binding: Binding) -> (r: bool)
        requires
            old(self).wf(),
            leased(old(self)@) <= old(limits).used,
            !old(self)@.routes.contains_key(binding.key),
            binding.number == old(self).spec_issued() < u64::MAX,
        ensures
            final(self).wf(),
            leased(final(self)@) <= final(limits).used,
            r == old(limits).admits(0, ENTRY_BYTES as int),
            r ==> final(self)@ == old(self)@.opened(binding) && *final(limits) == old(limits).after(
                0,
                ENTRY_BYTES as int,
            ) && final(self).spec_issued() == old(self).spec_issued() + 1,
            final(self).spec_delivered() == old(self).spec_delivered(),
            !r ==> *final(self) == *old(self) && *final(limits) == *old(limits),
            r ==> final(self).spec_next_expiry() == Some(
                earlier_of(old(self).spec_next_expiry(), binding.expires),
            ),
    {
        broadcast use lemma_numbers_differ;

        let lease = match limits.reserve(ENTRY_BYTES) {
            Some(lease) => lease,
            None => {
                return false;
            },
        };
        let ghost before = *self;
        let entry = Entry { binding, owner: None, pending: None, holders: 0, lease };
        let at: usize = self.entries.len();
        assert(before.indexed(binding.key));
        index::insert(&mut self.index, numbers(&binding.key), at);
        self.entries.push(entry);
        self.issued = self.issued + 1;
        self.next_expiry = match self.next_expiry {
            Some(next) if next <= binding.expires => Some(next),
            _ => Some(binding.expires),
        };
        proof {
            self.routes = Ghost(self.routes@.insert(binding.key, opened(binding)));
            assert(entry@ == opened(binding));
            assert forall|j: int| 0 <= j < self.entries@.len() implies #[trigger] self.placed(j) by {
                if j < at {
                    assert(before.placed(j));
                    assert(self.entries@[j] == before.entries@[j]);
                }
            }
            assert forall|k: FragmentKey| #[trigger] self.indexed(k) by {
                assert(before.indexed(k));
            }
            assert forall|k: FragmentKey| #[trigger] before@.routes.contains_key(
                k,
            ) implies before@.routes[k].binding.number != binding.number by {}
            lemma_changed_view(before@, binding.key, opened(binding));
            lemma_cost_bounds(before@);
            assert(self@ =~= before@.opened(binding));
            assert forall|k: FragmentKey| #[trigger] self@.routes.contains_key(k) implies self@.routes[k].holders
                <= self.delivered && self@.routes[k].binding.number < self.issued && (
            self.next_expiry matches Some(at) && at <= self@.routes[k].binding.expires) by {
                if k != binding.key {
                    assert(before@.routes.contains_key(k));
                }
            }
        }
        true
    }

    /// Finds the worker of a fragment, or keeps the fragment until the worker is
    /// known: the first frame that names an owner binds the datagram, and takes
    /// the frames that waited with it. Later fragments may overtake this delivery;
    /// the decoder accepts disorder. Where the allowance has no room for a waiting
    /// frame, its datagram is given up.
    pub fn route(
        &mut self,
        limits: &mut Limits,
        shard: usize,
        key: FragmentKey,
        first_owner: Option<usize>,
        frame: Received,
        now: u64,
    ) -> (r: Routed)
        requires
            old(self).wf(),
            leased(old(self)@) <= old(limits).used,
            old(self).spec_issued() < u64::MAX,
            old(self).spec_delivered() < u64::MAX,
            now + REASSEMBLY_LIFETIME <= u64::MAX,
            contents(frame.bytes).len() <= frame.allocation_size,
        ensures
            final(self).wf(),
            ({
                let routes = live(old(self)@, now);
                let accounts = old(limits).after(leased(old(self)@), leased(routes));
                let binding = Binding {
                    number: old(self).spec_issued(),
                    key,
                    expires: (now + REASSEMBLY_LIFETIME) as u64,
                    shard,
                };
                let after = routed(routes, accounts, binding, first_owner, frame);
                &&& final(self)@ == after.0
                &&& *final(limits) == after.1
                &&& r.delivery is Some == after.2 is Some
                &&& r.delivery matches Some(d) ==> d.wf() && d.frame == frame && after.2 == Some(
                    (
                        d.owner,
                        d.binding,
                        match d.pending {
                            Some(pending) => Some(pending@),
                            None => None,
                        },
                    ),
                )
            }),
            leased(final(self)@) + delivered_cost(r.delivery) <= final(limits).used,
            // A route that the call opens takes the next number, and every number that
            // was given out is below the next one.
            final(self).spec_issued() == old(self).spec_issued() + (if opens(
                old(self)@,
                *old(limits),
                key,
                now,
            ) {
                1int
            } else {
                0
            }),
            final(self)@.wf(),
            forall|k: FragmentKey| #[trigger]
                final(self)@.routes.contains_key(k) ==> final(self)@.routes[k].binding.number
                    < final(self).spec_issued(),
            r.delivery matches Some(d) ==> d.binding.number < final(self).spec_issued(),
            final(self).spec_delivered() == old(self).spec_delivered() + (if r.delivery is Some {
                1int
            } else {
                0
            }),
            r.earlier ==> final(self).spec_issued() > old(self).spec_issued()
                && final(self).spec_next_expiry() == Some((now + REASSEMBLY_LIFETIME) as u64),
            !r.earlier && final(self).spec_issued() > old(self).spec_issued() ==> (
            final(self).spec_next_expiry() matches Some(at) && at <= now + REASSEMBLY_LIFETIME),
    {
        self.expire(limits, now);
        let expires: u64 = now + REASSEMBLY_LIFETIME;
        let binding = Binding { number: self.issued, key, expires, shard };
        let ghost routes = self@;
        let ghost accounts = *limits;
        let mut earlier: bool = false;
        if self.find(&key).is_none() {
            earlier = match self.next_expiry {
                Some(next) => expires < next,
                None => true,
            };
            if !self.open(limits, binding) {
                return Routed { delivery: None, earlier: false };
            }
        }
        let ghost opened_routes = self@;
        let i: usize = match self.find(&key) {
            Some(i) => i,
            None => {
                return Routed { delivery: None, earlier };
            },
        };
        let ghost before = *self;
        assert(before.placed(i as int));
        if self.entries[i].owner.is_none() {
            self.entries[i].owner = first_owner;
        }
        let pending = self.entries[i].pending.take();
        if let Some(owner) = self.entries[i].owner {
            assert(self.entries@[i as int].holders <= self.delivered) by {
                assert(before@.routes.contains_key(key));
            }
            self.entries[i].holders = self.entries[i].holders + 1;
            self.delivered = self.delivered + 1;
            proof {
                self.routes = Ghost(self.routes@.insert(key, self.entries@[i as int]@));
                Shard::lemma_changed(before, *self, i as int);
            }
            let delivery = Delivery { owner, binding: self.entries[i].binding, frame, pending };
            return Routed { delivery: Some(delivery), earlier };
        }
        let mut batch = match pending {
            Some(batch) => batch,
            None => Pending::new(),
        };
        proof {
            lemma_cost_bounds(before@);
        }
        let kept = batch.push(limits, frame);
        self.entries[i].pending = Some(batch);
        proof {
            self.routes = Ghost(self.routes@.insert(key, self.entries@[i as int]@));
            Shard::lemma_changed(before, *self, i as int);
        }
        if !kept {
            let ghost mid = *self;
            self.forget(limits, i);
            proof {
                assert(mid@.without(key) =~= before@.without(key));
                lemma_without(before@, key);
            }
        }
        Routed { delivery: None, earlier }
    }

    /// Whether a binding still stands for its datagram.
    pub fn active(&self, binding: &Binding, now: u64) -> (r: bool)
        requires
            self.wf(),
        ensures
            r == spec_active(self@, *binding, now),
    {
        match self.find(&binding.key) {
            Some(i) => self.entries[i].binding.number == binding.number && now < binding.expires,
            None => false,
        }
    }

    /// Ends the route of a datagram that the decoder no longer keeps. A binding
    /// that another has replaced ends nothing. The next expiry stays, so that a
    /// completed datagram does not wake the supervisor.
    pub fn finish(&mut self, limits: &mut Limits, binding: &Binding)
        requires
            old(self).wf(),
            leased(old(self)@) <= old(limits).used,
        ensures
            final(self).wf(),
            final(self)@ == finished(old(self)@, *binding),
            *final(limits) == old(limits).after(leased(old(self)@), leased(final(self)@)),
            leased(final(self)@) <= final(limits).used,
            leased(final(self)@) <= leased(old(self)@),
            final(self).spec_next_expiry() == old(self).spec_next_expiry(),
            final(self).spec_issued() == old(self).spec_issued(),
            final(self).spec_delivered() == old(self).spec_delivered(),
    {
        proof {
            lemma_cost_bounds(self@);
        }
        if let Some(i) = self.find(&binding.key) {
            if self.entries[i].binding.number == binding.number {
                self.forget(limits, i);
            }
        }
    }

    /// A delivery of a binding is gone. The last one of a route that has ended gives
    /// the share of the route back. Nothing happens where no delivery of the binding
    /// is on its way.
    pub fn release(&mut self, limits: &mut Limits, binding: &Binding)
        requires
            old(self).wf(),
            leased(old(self)@) <= old(limits).used,
        ensures
            final(self).wf(),
            final(self)@ == released(old(self)@, *binding),
            *final(limits) == old(limits).after(leased(old(self)@), leased(final(self)@)),
            leased(final(self)@) <= final(limits).used,
            leased(final(self)@) <= leased(old(self)@),
            final(self).spec_next_expiry() == old(self).spec_next_expiry(),
            final(self).spec_issued() == old(self).spec_issued(),
            final(self).spec_delivered() == old(self).spec_delivered(),
    {
        let ghost before = *self;
        proof {
            lemma_cost_bounds(self@);
            lemma_released(self@, *binding, self.issued, self.delivered);
        }
        if let Some(i) = self.find(&binding.key) {
            assert(self.placed(i as int));
            if self.entries[i].binding.number == binding.number {
                if self.entries[i].holders > 0 {
                    self.entries[i].holders = self.entries[i].holders - 1;
                    proof {
                        let key = binding.key;
                        self.routes = Ghost(self.routes@.insert(key, self.entries@[i as int]@));
                        Shard::lemma_changed(before, *self, i as int);
                    }
                } else {
                    assert(left(self@.lingering, binding.number) == self@.lingering);
                }
                return;
            }
        }
        if let Some(lease) = self.lingering.leave(binding.number) {
            limits.release(lease);
        }
        proof {
            assert(self@ =~= released(before@, *binding));
            assert forall|j: int| 0 <= j < self.entries@.len() implies #[trigger] self.placed(j) by {
                assert(before.placed(j));
            }
            assert forall|k: FragmentKey| #[trigger] self.indexed(k) by {
                assert(before.indexed(k));
            }
        }
    }

    /// Gives up the oldest datagram that waits for its owner, where the shared
    /// budget is under pressure. Tells whether there was one.
    pub fn discard_oldest_pending(&mut self, limits: &mut Limits) -> (r: bool)
        requires
            old(self).wf(),
            leased(old(self)@) <= old(limits).used,
        ensures
            final(self).wf(),
            r == exists|k: FragmentKey| #[trigger] waits(old(self)@, k),
            r ==> exists|k: FragmentKey| #[trigger]
                waits(old(self)@, k) && final(self)@ == old(self)@.without(k) && (forall|
                    j: FragmentKey,
                | #[trigger]
                    waits(old(self)@, j) ==> old(self)@.routes[k].binding.expires
                        <= old(self)@.routes[j].binding.expires),
            !r ==> final(self)@ == old(self)@,
            *final(limits) == old(limits).after(leased(old(self)@), leased(final(self)@)),
            leased(final(self)@) <= final(limits).used,
            leased(final(self)@) <= leased(old(self)@),
            final(self).spec_issued() == old(self).spec_issued(),
            final(self).spec_delivered() == old(self).spec_delivered(),
    {
        let mut best: Option<usize> = None;
        let mut i: usize = 0;
        while i < self.entries.len()
            invariant
                self.wf(),
                *self == *old(self),
                i <= self.entries@.len(),
                best is None ==> forall|j: int|
                    0 <= j < i ==> (#[trigger] self.entries@[j]).pending is None,
                best matches Some(b) ==> b < i && self.entries@[b as int].pending is Some && forall|
                    j: int,
                |
                    0 <= j < i && (#[trigger] self.entries@[j]).pending is Some
                        ==> self.entries@[b as int].binding.expires
                        <= self.entries@[j].binding.expires,
            decreases self.entries@.len() - i,
        {
            if self.entries[i].pending.is_some() {
                let better: bool = match best {
                    Some(b) => self.entries[i].binding.expires < self.entries[b].binding.expires,
                    None => true,
                };
                if better {
                    best = Some(i);
                }
            }
            i = i + 1;
        }
        proof {
            lemma_cost_bounds(self@);
            assert forall|k: FragmentKey| #[trigger] waits(self@, k) implies exists|j: int|
                0 <= j < self.entries@.len() && (#[trigger] self.entries@[j]).binding.key == k
                    && self.entries@[j].pending is Some && self.entries@[j].binding.expires
                    == self@.routes[k].binding.expires by {
                assert(self.indexed(k));
                let j = mapping(self.index)[spec_numbers(k)] as int;
                assert(self.placed(j));
                assert(self.entries@[j].binding.key == k);
            }
        }
        match best {
            Some(b) => {
                proof {
                    assert(self.placed(b as int));
                    let k = self.entries@[b as int].binding.key;
                    assert(waits(self@, k));
                }
                self.forget(limits, b);
                true
            },
            None => false,
        }
    }
}

/// A route that has given out a binding and nothing more.
pub open spec fn opened(binding: Binding) -> EntryView {
    EntryView { binding, owner: None, pending: None, holders: 0 }
}

/// A fragment opens a route: its datagram has none whose time is not over, and the
/// allowance has room for one.
pub open spec fn opens(v: ShardView, limits: Limits, key: FragmentKey, now: u64) -> bool {
    &&& !live(v, now).routes.contains_key(key)
    &&& limits.after(leased(v), leased(live(v, now))).admits(0, ENTRY_BYTES as int)
}

/// The earlier of two times, of which the first may be missing.
pub open spec fn earlier_of(next: Option<u64>, at: u64) -> u64 {
    match next {
        Some(next) => if next <= at {
            next
        } else {
            at
        },
        None => at,
    }
}

/// The earliest expiry of some routes, if there are any.
pub open spec fn is_earliest(next: Option<u64>, routes: Map<FragmentKey, EntryView>) -> bool {
    match next {
        Some(at) => (exists|k: FragmentKey| #[trigger]
            routes.contains_key(k) && routes[k].binding.expires == at) && (forall|
            k: FragmentKey,
        | #[trigger]
            routes.contains_key(k) ==> at <= routes[k].binding.expires),
        None => routes =~= Map::empty(),
    }
}

/// What became of a fragment: its delivery, if its owner is known, and whether
/// the supervisor has to wake up earlier than it planned.
pub struct Routed {
    pub delivery: Option<Delivery>,
    pub earlier: bool,
}

/// What the frames of a delivery hold of the allowance.
pub open spec fn delivered_cost(delivery: Option<Delivery>) -> int {
    match delivery {
        Some(d) => match d.pending {
            Some(pending) => pending@.cost(),
            None => 0,
        },
        None => 0,
    }
}

/// What a fragment does to a shard and to the accounts, and who gets it with which
/// frames. `binding` is that of a datagram which starts with it.
pub open spec fn routed(
    v: ShardView,
    limits: Limits,
    binding: Binding,
    first_owner: Option<usize>,
    frame: Received,
) -> (ShardView, Limits, Option<(usize, Binding, Option<PendingView>)>) {
    let key = binding.key;
    if v.routes.contains_key(key) {
        joined(v, limits, key, first_owner, frame)
    } else if limits.admits(0, ENTRY_BYTES as int) {
        joined(
            v.opened(binding),
            limits.after(0, ENTRY_BYTES as int),
            key,
            first_owner,
            frame,
        )
    } else {
        (v, limits, None)
    }
}

/// `routed`, for a datagram that has a route.
pub open spec fn joined(
    v: ShardView,
    limits: Limits,
    key: FragmentKey,
    first_owner: Option<usize>,
    frame: Received,
) -> (ShardView, Limits, Option<(usize, Binding, Option<PendingView>)>) {
    let entry = v.routes[key];
    let owner = if entry.owner is Some {
        entry.owner
    } else {
        first_owner
    };
    let batch = match entry.pending {
        Some(pending) => pending,
        None => PendingView { frames: Seq::empty(), retained: 0 },
    };
    match owner {
        Some(to) => (
            ShardView {
                routes: v.routes.insert(
                    key,
                    EntryView { owner, pending: None, holders: entry.holders + 1, ..entry },
                ),
                ..v
            },
            limits,
            Some((to, entry.binding, entry.pending)),
        ),
        None => if limits.admits(batch.cost(), batch.push(frame).cost()) {
            (
                ShardView {
                    routes: v.routes.insert(
                        key,
                        EntryView { owner, pending: Some(batch.push(frame)), ..entry },
                    ),
                    ..v
                },
                limits.after(batch.cost(), batch.push(frame).cost()),
                None,
            )
        } else {
            (v.without(key), limits.after(leased(v), leased(v.without(key))), None)
        },
    }
}

/// A binding stands for its datagram until it expires, or its route ends.
pub open spec fn spec_active(v: ShardView, binding: Binding, now: u64) -> bool {
    &&& v.routes.contains_key(binding.key)
    &&& v.routes[binding.key].binding.number == binding.number
    &&& now < binding.expires
}

/// The shard after the datagram of a binding is done with.
pub open spec fn finished(v: ShardView, binding: Binding) -> ShardView {
    if v.routes.contains_key(binding.key) && v.routes[binding.key].binding.number
        == binding.number {
        v.without(binding.key)
    } else {
        v
    }
}

/// The shard after one delivery of a binding is gone.
pub open spec fn released(v: ShardView, binding: Binding) -> ShardView {
    let entry = v.routes[binding.key];
    if v.routes.contains_key(binding.key) && entry.binding.number == binding.number {
        if entry.holders > 0 {
            ShardView {
                routes: v.routes.insert(
                    binding.key,
                    EntryView { holders: (entry.holders - 1) as nat, ..entry },
                ),
                ..v
            }
        } else {
            v
        }
    } else {
        ShardView { lingering: left(v.lingering, binding.number), ..v }
    }
}

/// What is left after a delivery is gone is in order, and holds no more.
proof fn lemma_released(v: ShardView, binding: Binding, issued: u64, delivered: u64)
    requires
        v.wf(),
        v.numbered(issued),
        v.counted(delivered),
    ensures
        released(v, binding).wf(),
        released(v, binding).numbered(issued),
        released(v, binding).counted(delivered),
        leased(released(v, binding)) == leased(v) - (if !v.routes.contains_key(binding.key)
            || v.routes[binding.key].binding.number != binding.number {
            if v.lingering.contains_key(binding.number) && v.lingering[binding.number] == 1 {
                ENTRY_BYTES as int
            } else {
                0
            }
        } else {
            0
        }),
        0 <= leased(released(v, binding)),
{
    let w = released(v, binding);
    let entry = v.routes[binding.key];
    if v.routes.contains_key(binding.key) && entry.binding.number == binding.number {
        if entry.holders > 0 {
            let fewer = EntryView { holders: (entry.holders - 1) as nat, ..entry };
            lemma_changed_view(v, binding.key, fewer);
            assert forall|k: FragmentKey| #[trigger] w.routes.contains_key(k) implies w.routes[k].holders
                <= delivered && w.routes[k].binding.number < issued by {
                assert(v.routes.contains_key(k));
            }
        }
    } else {
        assert(v.lingering.contains_key(binding.number) && v.lingering[binding.number] > 1
            ==> w.lingering.dom() =~= v.lingering.dom());
        assert(v.lingering.contains_key(binding.number) && v.lingering[binding.number] == 1
            ==> w.lingering.dom() =~= v.lingering.dom().remove(binding.number));
        assert forall|k: FragmentKey| #[trigger] w.routes.contains_key(k) implies {
            let e = w.routes[k];
            &&& e.binding.key == k
            &&& e.owner is None ==> e.holders == 0
            &&& e.pending is Some ==> e.owner is None
            &&& !w.lingering.contains_key(e.binding.number)
        } by {
            assert(v.routes.contains_key(k));
        }
        assert forall|n: u64| #[trigger] w.lingering.contains_key(n) implies w.lingering[n] > 0 && n
            < issued by {
            assert(v.lingering.contains_key(n));
        }
    }
    lemma_cost_bounds(w);
}

/// Frames of this datagram wait for its owner.
pub open spec fn waits(v: ShardView, key: FragmentKey) -> bool {
    v.routes.contains_key(key) && v.routes[key].pending is Some
}

/// The routes of an endpoint. A stable hash of the addresses chooses the shard of
/// a datagram.
pub struct Routes {
    shards: Vec<Shard>,
}

/// What all shards hold of the allowance together.
pub open spec fn leased_by(shards: Seq<ShardView>) -> int
    decreases shards.len(),
{
    if shards.len() == 0 {
        0
    } else {
        leased_by(shards.drop_last()) + leased(shards.last())
    }
}

/// What one shard holds changes the sum as it changes.
pub proof fn lemma_leased_by(
    shards: Seq<ShardView>,
    i: int,
    shard: ShardView,
)
    requires
        0 <= i < shards.len(),
        forall|j: int| 0 <= j < shards.len() ==> (#[trigger] shards[j]).wf(),
    ensures
        leased_by(shards.update(i, shard)) == leased_by(shards) - leased(shards[i]) + leased(shard),
        0 <= leased(shards[i]) <= leased_by(shards),
    decreases shards.len(),
{
    let rest = shards.drop_last();
    let last = shards.len() - 1;
    lemma_cost_bounds(shards[last]);
    lemma_leased_by_nonnegative(rest);
    if i == last {
        assert(shards.update(i, shard).drop_last() =~= rest);
    } else {
        lemma_leased_by(rest, i, shard);
        assert(shards.update(i, shard).drop_last() =~= rest.update(i, shard));
    }
}

proof fn lemma_leased_by_nonnegative(shards: Seq<ShardView>)
    requires
        forall|j: int| 0 <= j < shards.len() ==> (#[trigger] shards[j]).wf(),
    ensures
        leased_by(shards) >= 0,
    decreases shards.len(),
{
    if shards.len() > 0 {
        lemma_cost_bounds(shards[shards.len() - 1]);
        assert forall|j: int| 0 <= j < shards.drop_last().len() implies (
        #[trigger] shards.drop_last()[j]).wf() by {
            assert(shards.drop_last()[j] == shards[j]);
        }
        lemma_leased_by_nonnegative(shards.drop_last());
    }
}

impl View for Routes {
    type V = Seq<ShardView>;

    closed spec fn view(&self) -> Seq<ShardView> {
        self.shards@.map_values(|shard: Shard| shard@)
    }
}

impl Routes {
    pub closed spec fn wf(self) -> bool {
        forall|i: int| 0 <= i < self.shards@.len() ==> (#[trigger] self.shards@[i]).wf()
    }

    /// How many bindings a shard has given out. Its next one has this number.
    pub closed spec fn spec_issued(self, shard: int) -> u64 {
        self.shards@[shard].spec_issued()
    }

    /// How many deliveries a shard has made.
    pub closed spec fn spec_delivered(self, shard: int) -> u64 {
        self.shards@[shard].spec_delivered()
    }

    /// Nothing was given out by any shard.
    pub open spec fn same_counts(self, other: Routes) -> bool {
        forall|i: int|
            0 <= i < self@.len() ==> #[trigger] self.spec_issued(i) == other.spec_issued(i)
                && self.spec_delivered(i) == other.spec_delivered(i)
    }

    /// Every binding has a number of its own in its shard, below the next one.
    pub proof fn lemma_numbers(&self, shard: int)
        requires
            self.wf(),
            0 <= shard < self@.len(),
        ensures
            self@[shard].wf(),
            self@[shard].numbered(self.spec_issued(shard)),
    {
        assert(self.shards@[shard].wf());
    }

    /// Routes over `count` shards.
    pub fn new(count: usize) -> (r: Routes)
        ensures
            r.wf(),
            r@.len() == count,
            forall|i: int|
                0 <= i < count ==> (#[trigger] r@[i]).routes == Map::<FragmentKey, EntryView>::empty()
                    && r@[i].lingering == Map::<u64, nat>::empty(),
            forall|i: int|
                0 <= i < count ==> #[trigger] r.spec_issued(i) == 0 && r.spec_delivered(i) == 0,
    {
        let mut shards: Vec<Shard> = Vec::new();
        let mut i: usize = 0;
        while i < count
            invariant
                i <= count,
                shards@.len() == i,
                forall|j: int|
                    0 <= j < i ==> (#[trigger] shards@[j]).wf() && shards@[j]@.routes == Map::<
                        FragmentKey,
                        EntryView,
                    >::empty() && shards@[j]@.lingering == Map::<u64, nat>::empty()
                        && shards@[j].spec_issued() == 0 && shards@[j].spec_delivered() == 0,
            decreases count - i,
        {
            shards.push(Shard::new());
            i = i + 1;
        }
        Routes { shards }
    }

    /// `Shard::route` in one shard.
    pub fn route(
        &mut self,
        limits: &mut Limits,
        shard: usize,
        key: FragmentKey,
        first_owner: Option<usize>,
        frame: Received,
        now: u64,
    ) -> (r: Routed)
        requires
            old(self).wf(),
            shard < old(self)@.len(),
            leased_by(old(self)@) <= old(limits).used,
            old(self).spec_issued(shard as int) < u64::MAX,
            old(self).spec_delivered(shard as int) < u64::MAX,
            now + REASSEMBLY_LIFETIME <= u64::MAX,
            contents(frame.bytes).len() <= frame.allocation_size,
        ensures
            final(self).wf(),
            ({
                let before = old(self)@[shard as int];
                let routes = live(before, now);
                let accounts = old(limits).after(leased(before), leased(routes));
                let binding = Binding {
                    number: old(self).spec_issued(shard as int),
                    key,
                    expires: (now + REASSEMBLY_LIFETIME) as u64,
                    shard,
                };
                let after = routed(routes, accounts, binding, first_owner, frame);
                &&& final(self)@ == old(self)@.update(shard as int, after.0)
                &&& *final(limits) == after.1
                &&& r.delivery is Some == after.2 is Some
                &&& r.delivery matches Some(d) ==> d.wf() && d.frame == frame && after.2 == Some(
                    (
                        d.owner,
                        d.binding,
                        match d.pending {
                            Some(pending) => Some(pending@),
                            None => None,
                        },
                    ),
                )
            }),
            leased_by(final(self)@) + delivered_cost(r.delivery) <= final(limits).used,
            // A route that the call opens takes the next number of its shard, and every
            // number that was given out is below the next one.
            forall|i: int|
                0 <= i < old(self)@.len() ==> #[trigger] final(self).spec_issued(i)
                    == old(self).spec_issued(i) + (if i == shard && opens(
                    old(self)@[shard as int],
                    *old(limits),
                    key,
                    now,
                ) {
                    1int
                } else {
                    0
                }),
            forall|i: int|
                0 <= i < old(self)@.len() ==> #[trigger] final(self).spec_delivered(i)
                    == old(self).spec_delivered(i) + (if i == shard && r.delivery is Some {
                    1int
                } else {
                    0
                }),
            final(self)@[shard as int].wf(),
            forall|k: FragmentKey| #[trigger]
                final(self)@[shard as int].routes.contains_key(k)
                    ==> final(self)@[shard as int].routes[k].binding.number < final(
                    self).spec_issued(shard as int),
            r.delivery matches Some(d) ==> d.binding.number < final(self).spec_issued(
                shard as int,
            ),
    {
        let ghost before = self@;
        proof {
            self.lemma_views();
            lemma_leased_by(before, shard as int, before[shard as int]);
            law_routing_balances(
                before[shard as int],
                *limits,
                now,
                Binding {
                    number: self.spec_issued(shard as int),
                    key,
                    expires: (now + REASSEMBLY_LIFETIME) as u64,
                    shard,
                },
                first_owner,
                frame,
            );
        }
        let r = self.shards[shard].route(limits, shard, key, first_owner, frame, now);
        proof {
            assert(self@ =~= before.update(shard as int, self@[shard as int]));
            lemma_leased_by(before, shard as int, self@[shard as int]);
        }
        r
    }

    proof fn lemma_views(&self)
        requires
            self.wf(),
        ensures
            forall|j: int| 0 <= j < self@.len() ==> (#[trigger] self@[j]).wf(),
    {
        assert forall|j: int| 0 <= j < self@.len() implies (#[trigger] self@[j]).wf() by {
            assert(self.shards@[j].wf());
        }
    }

    /// `Shard::active` in the shard of a binding.
    pub fn active(&self, binding: &Binding, now: u64) -> (r: bool)
        requires
            self.wf(),
            binding.shard < self@.len(),
        ensures
            r == spec_active(self@[binding.shard as int], *binding, now),
    {
        self.shards[binding.shard].active(binding, now)
    }

    /// `Shard::finish` in the shard of a binding.
    pub fn finish(&mut self, limits: &mut Limits, binding: &Binding)
        requires
            old(self).wf(),
            binding.shard < old(self)@.len(),
            leased_by(old(self)@) <= old(limits).used,
        ensures
            final(self).wf(),
            final(self)@ == old(self)@.update(
                binding.shard as int,
                finished(old(self)@[binding.shard as int], *binding),
            ),
            *final(limits) == old(limits).after(leased_by(old(self)@), leased_by(final(self)@)),
            leased_by(final(self)@) <= final(limits).used,
            final(self).same_counts(*old(self)),
    {
        let shard: usize = binding.shard;
        let ghost before = self@;
        proof {
            self.lemma_views();
            lemma_leased_by(before, shard as int, before[shard as int]);
        }
        self.shards[shard].finish(limits, binding);
        proof {
            assert(self@ =~= before.update(shard as int, self@[shard as int]));
            lemma_leased_by(before, shard as int, self@[shard as int]);
        }
    }

    /// `Shard::release` in the shard of a binding.
    pub fn release(&mut self, limits: &mut Limits, binding: &Binding)
        requires
            old(self).wf(),
            binding.shard < old(self)@.len(),
            leased_by(old(self)@) <= old(limits).used,
        ensures
            final(self).wf(),
            final(self)@ == old(self)@.update(
                binding.shard as int,
                released(old(self)@[binding.shard as int], *binding),
            ),
            *final(limits) == old(limits).after(leased_by(old(self)@), leased_by(final(self)@)),
            leased_by(final(self)@) <= final(limits).used,
            final(self).same_counts(*old(self)),
    {
        let shard: usize = binding.shard;
        let ghost before = self@;
        proof {
            self.lemma_views();
            lemma_leased_by(before, shard as int, before[shard as int]);
        }
        self.shards[shard].release(limits, binding);
        proof {
            assert(self@ =~= before.update(shard as int, self@[shard as int]));
            lemma_leased_by(before, shard as int, self@[shard as int]);
        }
    }

    /// `Shard::discard_oldest_pending` in one shard.
    pub fn discard_oldest_pending(&mut self, limits: &mut Limits, shard: usize) -> (r: bool)
        requires
            old(self).wf(),
            shard < old(self)@.len(),
            leased_by(old(self)@) <= old(limits).used,
        ensures
            final(self).wf(),
            r == exists|k: FragmentKey| #[trigger] waits(old(self)@[shard as int], k),
            r ==> exists|k: FragmentKey| #[trigger]
                waits(old(self)@[shard as int], k) && final(self)@ == old(self)@.update(
                    shard as int,
                    old(self)@[shard as int].without(k),
                ) && (forall|j: FragmentKey| #[trigger]
                    waits(old(self)@[shard as int], j)
                        ==> old(self)@[shard as int].routes[k].binding.expires
                        <= old(self)@[shard as int].routes[j].binding.expires),
            !r ==> final(self)@ == old(self)@,
            *final(limits) == old(limits).after(leased_by(old(self)@), leased_by(final(self)@)),
            leased_by(final(self)@) <= final(limits).used,
            final(self).same_counts(*old(self)),
    {
        let ghost before = self@;
        proof {
            self.lemma_views();
            lemma_leased_by(before, shard as int, before[shard as int]);
        }
        let r = self.shards[shard].discard_oldest_pending(limits);
        proof {
            assert(self@ =~= before.update(shard as int, self@[shard as int]));
            lemma_leased_by(before, shard as int, self@[shard as int]);
        }
        r
    }

    /// When a shard has to be looked at again.
    pub closed spec fn spec_next_expiry(self, shard: int) -> Option<u64> {
        self.shards@[shard].spec_next_expiry()
    }

    /// When the supervisor has to call `expire` next: as soon as the first shard
    /// asks for it, and before any route has outlived its time.
    pub fn next_expiry(&self) -> (r: Option<u64>)
        requires
            self.wf(),
        ensures
            forall|i: int|
                0 <= i < self@.len() && (#[trigger] self.spec_next_expiry(i)) is Some ==> (
                r matches Some(at) && at <= self.spec_next_expiry(i)->0),
            r is Some ==> exists|i: int|
                0 <= i < self@.len() && #[trigger] self.spec_next_expiry(i) == r,
            forall|i: int, key: FragmentKey|
                0 <= i < self@.len() && #[trigger] self@[i].routes.contains_key(key) ==> (
                r matches Some(at) && at <= self@[i].routes[key].binding.expires),
    {
        let mut best: Option<u64> = None;
        let mut i: usize = 0;
        while i < self.shards.len()
            invariant
                self.wf(),
                i <= self.shards@.len() == self@.len(),
                forall|j: int|
                    0 <= j < i && (#[trigger] self.spec_next_expiry(j)) is Some ==> (
                    best matches Some(at) && at <= self.spec_next_expiry(j)->0),
                best is Some ==> exists|j: int|
                    0 <= j < i && #[trigger] self.spec_next_expiry(j) == best,
            decreases self.shards@.len() - i,
        {
            let ghost before = best;
            best = match (best, self.shards[i].next_expiry) {
                (Some(a), Some(b)) => if a <= b {
                    Some(a)
                } else {
                    Some(b)
                },
                (Some(a), None) => Some(a),
                (None, b) => b,
            };
            proof {
                assert(self.spec_next_expiry(i as int) == self.shards@[i as int].next_expiry);
                if best == before && best is Some {
                    let j = choose|j: int|
                        0 <= j < i && #[trigger] self.spec_next_expiry(j) == before;
                    assert(self.spec_next_expiry(j) == best);
                }
            }
            i = i + 1;
        }
        proof {
            assert forall|j: int, key: FragmentKey|
                0 <= j < self@.len() && #[trigger] self@[j].routes.contains_key(key) implies (
            best matches Some(at) && at <= self@[j].routes[key].binding.expires) by {
                assert(self.shards@[j].wf());
                assert(self@[j] == self.shards@[j]@);
                assert(self.spec_next_expiry(j) is Some);
            }
        }
        best
    }

    /// Gives up the routes of all shards whose time is over, also where every
    /// receive worker is idle.
    pub fn expire(&mut self, limits: &mut Limits, now: u64)
        requires
            old(self).wf(),
            leased_by(old(self)@) <= old(limits).used,
        ensures
            final(self).wf(),
            final(self)@.len() == old(self)@.len(),
            forall|i: int|
                0 <= i < old(self)@.len() ==> #[trigger] final(self)@[i] == live(
                    old(self)@[i],
                    now,
                ),
            *final(limits) == old(limits).after(leased_by(old(self)@), leased_by(final(self)@)),
            leased_by(final(self)@) <= final(limits).used,
            final(self).same_counts(*old(self)),
    {
        let ghost all = self@;
        let mut i: usize = 0;
        proof {
            self.lemma_views();
            lemma_leased_by_nonnegative(all);
        }
        while i < self.shards.len()
            invariant
                self.wf(),
                all == old(self)@,
                i <= self.shards@.len() == self@.len() == all.len(),
                forall|j: int| 0 <= j < i ==> #[trigger] self@[j] == live(all[j], now),
                forall|j: int| i <= j < all.len() ==> #[trigger] self@[j] == all[j],
                0 <= leased_by(self@) <= leased_by(all) <= old(limits).used,
                leased_by(self@) <= limits.used,
                *limits == old(limits).after(leased_by(all), leased_by(self@)),
                self.same_counts(*old(self)),
            decreases self.shards@.len() - i,
        {
            let ghost before = *self;
            proof {
                self.lemma_views();
                lemma_leased_by(self@, i as int, self@[i as int]);
                assert(self.shards@[i as int]@ == self@[i as int]);
            }
            self.shards[i].expire(limits, now);
            proof {
                assert(self@ =~= before@.update(i as int, self@[i as int]));
                lemma_leased_by(before@, i as int, self@[i as int]);
                self.lemma_views();
                lemma_leased_by_nonnegative(self@);
                lemma_live_cost(before@[i as int], now);
                assert forall|j: int| 0 <= j < self@.len() implies #[trigger] self.spec_issued(j)
                    == old(self).spec_issued(j) && self.spec_delivered(j) == old(
                    self).spec_delivered(j) by {
                    assert(before.spec_issued(j) == old(self).spec_issued(j));
                }
            }
            i = i + 1;
        }
    }
}

/// The bindings that linger are the same whether a route ends now or with others.
proof fn lemma_ended_again(v: ShardView, k: FragmentKey, rest: Map<FragmentKey, EntryView>)
    requires
        v.wf(),
        v.routes.contains_key(k),
        !rest.contains_key(k),
    ensures
        ended(v.without(k), rest) == ended(v, rest),
{
    let w = v.without(k);
    let number = v.routes[k].binding.number;
    lemma_without(v, k);
    assert forall|n: u64| #[trigger] ended(w, rest).contains_key(n) <==> ended(
        v,
        rest,
    ).contains_key(n) by {
        if exists|j: FragmentKey| #[trigger] leaves(v, rest, j, n) {
            let j = choose|j: FragmentKey| #[trigger] leaves(v, rest, j, n);
            if j != k {
                assert(leaves(w, rest, j, n));
            }
        }
        if exists|j: FragmentKey| #[trigger] leaves(w, rest, j, n) {
            let j = choose|j: FragmentKey| #[trigger] leaves(w, rest, j, n);
            assert(leaves(v, rest, j, n));
        }
        if v.routes[k].holders > 0 {
            assert(leaves(v, rest, k, number));
        }
    }
    assert forall|n: u64| #[trigger] ended(v, rest).contains_key(n) implies ended(w, rest)[n]
        == ended(v, rest)[n] by {
        if !v.lingering.contains_key(n) {
            let j = choose|j: FragmentKey| #[trigger] leaves(v, rest, j, n);
            assert(leaves(v, rest, j, n));
            assert(v.routes.contains_key(j));
            if n == number {
                assert(j == k);
            } else {
                assert(leaves(w, rest, j, n));
                let i = choose|i: FragmentKey| #[trigger] leaves(w, rest, i, n);
                assert(leaves(w, rest, i, n));
                assert(v.routes.contains_key(i));
                assert(i == j);
            }
        }
    }
    assert(ended(w, rest) =~= ended(v, rest));
}

/// What has not expired is in order and holds no more than there was.
proof fn lemma_live_cost(v: ShardView, now: u64)
    requires
        v.wf(),
    ensures
        0 <= leased(live(v, now)) <= leased(v),
        live(v, now).wf(),
        forall|issued: u64| v.numbered(issued) ==> #[trigger] live(v, now).numbered(issued),
    decreases v.routes.dom().len(),
{
    let rest = live(v, now);
    lemma_cost_bounds(v);
    if exists|k: FragmentKey| #[trigger]
        v.routes.contains_key(k) && v.routes[k].binding.expires <= now {
        let k = choose|k: FragmentKey| #[trigger]
            v.routes.contains_key(k) && v.routes[k].binding.expires <= now;
        let fewer = v.without(k);
        lemma_without(v, k);
        assert(fewer.routes.dom() =~= v.routes.dom().remove(k));
        lemma_live_cost(fewer, now);
        assert(live(fewer, now).routes =~= rest.routes);
        lemma_ended_again(v, k, rest.routes);
        assert(live(fewer, now) =~= rest);
        assert forall|issued: u64| v.numbered(issued) implies #[trigger] rest.numbered(issued) by {
            assert(fewer.numbered(issued));
            assert(live(fewer, now).numbered(issued));
        }
    } else {
        assert(rest.routes =~= v.routes);
        lemma_none_ended(v);
        assert(rest =~= v);
    }
}

/// Routing a fragment moves the accounts by exactly what the routes, the bindings that
/// linger and the delivered frames hold.
pub proof fn law_routing_balances(
    v: ShardView,
    limits: Limits,
    now: u64,
    binding: Binding,
    first_owner: Option<usize>,
    frame: Received,
)
    requires
        v.wf(),
        v.numbered(binding.number),
        leased(v) <= limits.used,
    ensures
        ({
            let rest = live(v, now);
            let accounts = limits.after(leased(v), leased(rest));
            let after = routed(rest, accounts, binding, first_owner, frame);
            let delivered = match after.2 {
                Some(d) => match d.2 {
                    Some(pending) => pending.cost(),
                    None => 0,
                },
                None => 0,
            };
            &&& after.1.used - leased(after.0) - delivered == limits.used - leased(v)
            &&& after.0.wf()
        }),
{
    let rest = live(v, now);
    let accounts = limits.after(leased(v), leased(rest));
    let key = binding.key;
    lemma_live_cost(v, now);
    if rest.routes.contains_key(key) {
        lemma_joined_balances(rest, accounts, key, first_owner, frame);
    } else if accounts.admits(0, ENTRY_BYTES as int) {
        assert(rest.numbered(binding.number));
        lemma_changed_view(rest, key, opened(binding));
        lemma_joined_balances(
            rest.opened(binding),
            accounts.after(0, ENTRY_BYTES as int),
            key,
            first_owner,
            frame,
        );
    }
}

proof fn lemma_joined_balances(
    v: ShardView,
    limits: Limits,
    key: FragmentKey,
    first_owner: Option<usize>,
    frame: Received,
)
    requires
        v.wf(),
        v.routes.contains_key(key),
        leased(v) <= limits.used,
    ensures
        ({
            let after = joined(v, limits, key, first_owner, frame);
            let delivered = match after.2 {
                Some(d) => match d.2 {
                    Some(pending) => pending.cost(),
                    None => 0,
                },
                None => 0,
            };
            &&& after.1.used - leased(after.0) - delivered == limits.used - leased(v)
            &&& after.0.wf()
        }),
{
    let after = joined(v, limits, key, first_owner, frame);
    lemma_cost_bounds(v);
    if after.0.routes.contains_key(key) {
        lemma_changed_view(v, key, after.0.routes[key]);
    } else {
        lemma_without(v, key);
    }
}

/// The share of a route stays in use until the route has ended and the last delivery
/// of its binding is gone, whichever comes last; then it is given back, once.
pub proof fn law_shares_last_as_long_as_deliveries(v: ShardView, binding: Binding)
    requires
        v.wf(),
        v.routes.contains_key(binding.key),
        v.routes[binding.key].binding == binding,
        v.routes[binding.key].pending is None,
    ensures
        ({
            let holders = v.routes[binding.key].holders;
            let after = finished(v, binding);
            &&& holders == 0 ==> leased(after) == leased(v) - ENTRY_BYTES
            &&& holders > 0 ==> leased(after) == leased(v)
            &&& holders == 1 ==> leased(released(after, binding)) == leased(v) - ENTRY_BYTES
            &&& holders > 1 ==> leased(released(after, binding)) == leased(v)
            &&& holders > 0 ==> leased(released(v, binding)) == leased(v)
            &&& holders > 0 ==> finished(released(v, binding), binding) == released(
                after,
                binding,
            )
        }),
{
    let key = binding.key;
    let holders = v.routes[key].holders;
    let after = finished(v, binding);
    lemma_without(v, key);
    if holders > 0 {
        let fewer = EntryView { holders: (holders - 1) as nat, ..v.routes[key] };
        lemma_changed_view(v, key, fewer);
        let rest = released(after, binding);
        if holders == 1 {
            assert(rest.lingering =~= v.lingering);
        } else {
            assert(rest.lingering.dom() =~= after.lingering.dom());
            assert(rest.lingering =~= v.lingering.insert(binding.number, (holders - 1) as nat));
        }
        let early = finished(released(v, binding), binding);
        assert(early.routes =~= rest.routes);
        assert(early =~= rest);
    }
}

/// Once a datagram has an owner, every fragment of it goes there under the same
/// binding, whatever owner a later fragment names.
pub proof fn law_first_owner_stays(
    v: ShardView,
    limits: Limits,
    key: FragmentKey,
    claimed: Option<usize>,
    frame: Received,
)
    requires
        v.routes.contains_key(key),
        v.routes[key].owner is Some,
    ensures
        joined(v, limits, key, claimed, frame).2 == Some(
            (v.routes[key].owner->0, v.routes[key].binding, v.routes[key].pending),
        ),
        joined(v, limits, key, claimed, frame).0.routes[key].owner == v.routes[key].owner,
        joined(v, limits, key, claimed, frame).0.routes[key].binding == v.routes[key].binding,
{
}

/// No fragment moves the expiry of its datagram's route.
pub proof fn law_route_expiry_is_not_refreshed(
    v: ShardView,
    limits: Limits,
    binding: Binding,
    first_owner: Option<usize>,
    frame: Received,
)
    requires
        v.routes.contains_key(binding.key),
    ensures
        ({
            let after = routed(v, limits, binding, first_owner, frame).0;
            after.routes.contains_key(binding.key) ==> after.routes[binding.key].binding
                == v.routes[binding.key].binding
        }),
{
}

/// Frames wait in the order in which they came, and leave together, once, with the
/// frame that names their owner.
pub proof fn law_waiting_frames_leave_once(
    v: ShardView,
    limits: Limits,
    key: FragmentKey,
    waiting: PendingView,
    owner: usize,
    frame: Received,
    next: Received,
)
    requires
        v.routes.contains_key(key),
        v.routes[key].owner is None,
        v.routes[key].pending == Some(waiting),
    ensures
        ({
            let after = joined(v, limits, key, None, frame);
            after.0.routes.contains_key(key) ==> after.0.routes[key].pending == Some(
                waiting.push(frame),
            )
        }),
        ({
            let after = joined(v, limits, key, Some(owner), frame);
            &&& after.2 == Some((owner, v.routes[key].binding, Some(waiting)))
            &&& joined(after.0, after.1, key, None, next).2 == Some(
                (owner, v.routes[key].binding, None::<PendingView>),
            )
        }),
{
}

/// A binding was given out, and its route has ended.
pub open spec fn is_over(v: ShardView, issued: u64, binding: Binding) -> bool {
    &&& binding.number < issued
    &&& !(v.routes.contains_key(binding.key) && v.routes[binding.key].binding.number
        == binding.number)
}

/// The end of a binding's route is final: `finish` brings it about, and whatever
/// happens to the shard then, the binding is never active again. A route that is opened
/// later under the same key takes the next number.
pub proof fn law_ended_bindings_stay_inactive(
    v: ShardView,
    limits: Limits,
    issued: u64,
    over: Binding,
    other: Binding,
    opened: Binding,
    first_owner: Option<usize>,
    frame: Received,
    now: u64,
    key: FragmentKey,
)
    requires
        over.number < issued,
        opened.number == issued < u64::MAX,
    ensures
        is_over(finished(v, over), issued, over),
        is_over(v, issued, over) ==> {
            &&& !spec_active(v, over, now)
            &&& is_over(live(v, now), issued, over)
            &&& is_over(finished(v, other), issued, over)
            &&& is_over(released(v, other), issued, over)
            &&& is_over(v.without(key), issued, over)
            &&& is_over(
                routed(v, limits, opened, first_owner, frame).0,
                (issued + 1) as u64,
                over,
            )
        },
{
}

/// Ending a binding whose key has been bound anew changes nothing. Ending the one that
/// stands unbinds the key, and the next fragment of it, where the allowance has room,
/// is routed under a new binding.
pub proof fn law_finish_ends_its_own_route(
    v: ShardView,
    limits: Limits,
    issued: u64,
    over: Binding,
    opened: Binding,
    owner: usize,
    frame: Received,
)
    requires
        v.wf(),
        v.numbered(issued),
        opened.number == issued,
        v.routes.contains_key(opened.key),
        over.key == opened.key,
        over.number != v.routes[opened.key].binding.number,
        limits.admits(0, ENTRY_BYTES as int),
    ensures
        finished(v, over) == v,
        ({
            let current = v.routes[opened.key].binding;
            let after = finished(v, current);
            &&& !after.routes.contains_key(opened.key)
            &&& routed(after, limits, opened, Some(owner), frame).2 == Some(
                (owner, opened, None::<PendingView>),
            )
            &&& opened.number != current.number
            &&& over.number < issued ==> opened.number != over.number
        }),
{
}

/// The first fragments of a datagram, while its owner is not known and the allowance has
/// room for them, wait; the one that names the owner is delivered to that owner at once,
/// with all that waited. Where there is no room for a new route, nothing changes.
pub proof fn law_fragments_wait_or_are_delivered(
    v: ShardView,
    limits: Limits,
    binding: Binding,
    owner: usize,
    frame: Received,
)
    requires
        !v.routes.contains_key(binding.key),
    ensures
        ({
            let cost = frame.allocation_size + RECEIVED_BYTES;
            let room = limits.used + ENTRY_BYTES <= limits.target && limits.used + ENTRY_BYTES
                <= usize::MAX;
            let fits = limits.used + ENTRY_BYTES + cost <= limits.target && limits.used
                + ENTRY_BYTES + cost <= usize::MAX;
            let waits = routed(v, limits, binding, None, frame);
            let goes = routed(v, limits, binding, Some(owner), frame);
            &&& !room ==> waits == (v, limits, None::<(usize, Binding, Option<PendingView>)>)
                && goes == (v, limits, None::<(usize, Binding, Option<PendingView>)>)
            &&& room ==> goes.2 == Some((owner, binding, None::<PendingView>))
                && goes.0.routes.contains_key(binding.key) && goes.0.routes[binding.key].owner
                == Some(owner) && goes.0.routes[binding.key].holders == 1
            &&& waits.2 is None
            &&& fits ==> waits.0.routes.contains_key(binding.key)
                && waits.0.routes[binding.key].owner is None
                && waits.0.routes[binding.key].pending is Some
                && (waits.0.routes[binding.key].pending->0).frames == seq![frame]
                && waits.0.routes[binding.key].binding == binding
        }),
{
    let none = PendingView { frames: Seq::empty(), retained: 0 };
    assert(none.frames.push(frame) =~= seq![frame]);
}

/// A further fragment without an owner joins those that wait, where the allowance has room
/// for it; where it has none, the datagram's route is given up.
pub proof fn law_waiting_frames_grow_within_the_allowance(
    v: ShardView,
    limits: Limits,
    key: FragmentKey,
    waiting: PendingView,
    frame: Received,
)
    requires
        v.routes.contains_key(key),
        v.routes[key].owner is None,
        v.routes[key].pending == Some(waiting),
    ensures
        ({
            let after = joined(v, limits, key, None, frame);
            let grown = limits.used - waiting.cost() + waiting.push(frame).cost();
            &&& after.2 is None
            &&& grown <= limits.target && grown <= usize::MAX ==> after.0.routes.contains_key(key)
                && (after.0.routes[key].pending matches Some(more) && more.frames
                == waiting.frames.push(frame))
            &&& grown > limits.target && waiting.push(frame).cost() > waiting.cost()
                ==> !after.0.routes.contains_key(key)
        }),
{
}

/// A fragment changes nothing of the routes of other datagrams, and neither does the end
/// of a route or of a delivery.
pub proof fn law_fragments_touch_only_their_route(
    v: ShardView,
    limits: Limits,
    binding: Binding,
    first_owner: Option<usize>,
    frame: Received,
    other: FragmentKey,
)
    requires
        other != binding.key,
    ensures
        ({
            let after = routed(v, limits, binding, first_owner, frame).0;
            &&& after.routes.contains_key(other) == v.routes.contains_key(other)
            &&& v.routes.contains_key(other) ==> after.routes[other] == v.routes[other]
            &&& finished(v, binding).routes.contains_key(other) == v.routes.contains_key(other)
            &&& v.routes.contains_key(other) ==> finished(v, binding).routes[other]
                == v.routes[other]
            &&& released(v, binding).routes.contains_key(other) == v.routes.contains_key(other)
            &&& v.routes.contains_key(other) ==> released(v, binding).routes[other]
                == v.routes[other]
        }),
{
}

/// A route stands until the time of its binding is over, and no longer; a binding is
/// active as long as its own route stands.
pub proof fn law_routes_stand_until_they_expire(v: ShardView, now: u64, key: FragmentKey)
    ensures
        live(v, now).routes.contains_key(key) <==> v.routes.contains_key(key) && now
            < v.routes[key].binding.expires,
        live(v, now).routes.contains_key(key) ==> live(v, now).routes[key] == v.routes[key],
        v.routes.contains_key(key) && v.routes[key].binding.key == key ==> (spec_active(
            v,
            v.routes[key].binding,
            now,
        ) <==> now < v.routes[key].binding.expires),
{
}

/// Every delivery of a binding is counted, and nothing else is: the count of a route grows
/// by one with each fragment that is delivered, falls by one with each delivery that is
/// gone, and otherwise stays.
pub proof fn law_deliveries_are_counted(
    v: ShardView,
    limits: Limits,
    key: FragmentKey,
    first_owner: Option<usize>,
    frame: Received,
)
    requires
        v.routes.contains_key(key),
        v.routes[key].binding.key == key,
    ensures
        ({
            let entry = v.routes[key];
            let after = joined(v, limits, key, first_owner, frame);
            &&& after.2 is Some <==> entry.owner is Some || first_owner is Some
            &&& after.2 is Some ==> after.0.routes.contains_key(key) && after.0.routes[key].holders
                == entry.holders + 1 && after.0.lingering == v.lingering && after.1 == limits
            &&& after.2 is None && after.0.routes.contains_key(key)
                ==> after.0.routes[key].holders == entry.holders
            &&& entry.holders > 0 ==> released(v, entry.binding).routes[key].holders
                == entry.holders - 1 && released(v, entry.binding).routes.contains_key(key)
            &&& after.2 is Some && entry.owner is Some ==> released(
                after.0,
                entry.binding,
            ).routes[key].holders == entry.holders
        }),
{
}

/// A frame that waits counts for the block that it keeps alive and for its descriptor, and
/// stands behind those that came before it.
pub proof fn law_waiting_frames_are_counted(waiting: PendingView, frame: Received)
    ensures
        waiting.push(frame).cost() - waiting.cost() == frame.allocation_size + RECEIVED_BYTES,
        waiting.push(frame).frames == waiting.frames.push(frame),
{
    assert((waiting.frames.len() + 1) * RECEIVED_BYTES == waiting.frames.len() * RECEIVED_BYTES
        + RECEIVED_BYTES) by (nonlinear_arith);
}

} // verus!
