//! Datagrams that come in pieces, one frame after another.
use crate::decoder::{
    after_offer, alive, complete_header, decoded, distinct, fresh, holds,
    law_datagrams_stay_separate, leased, lemma_alive, lemma_leased_at, lemma_leased_nonnegative,
    piece_of, reassembled, slot, without_stale, AssemblyView, Piece, ASSEMBLY_BYTES,
    REASSEMBLY_LIFETIME,
};
use crate::packet::{spec_parse, Fragment, FragmentKey, ParsedView};
use crate::ranges::{overlaps, recordable, span, touches};
use crate::reassembly::Limits;
use crate::wire::IpHeader;
use vstd::prelude::*;

verus! {

/// A datagram of `bytes` of a transport protocol, cut at some places, under one key.
/// Part `i` goes from `cuts[i]` to `cuts[i + 1]`, behind a header of `headers[i]`
/// bytes.
pub struct Cut {
    pub key: FragmentKey,
    pub protocol: u8,
    pub prefix_len: usize,
    pub headers: Seq<usize>,
    pub bytes: Seq<u8>,
    pub cuts: Seq<int>,
    pub expires: u64,
    pub binding: Option<u64>,
}

impl Cut {
    /// The parts are not empty and cover the datagram, which fits its family. In IPv6
    /// the first part holds the whole transport header, and each part but the last is
    /// a multiple of eight.
    pub open spec fn wf(self) -> bool {
        &&& self.cuts.len() == self.headers.len() + 1
        &&& self.headers.len() > 0
        &&& self.cuts[0] == 0
        &&& self.cuts.last() == self.bytes.len()
        &&& forall|i: int, j: int|
            0 <= i < j < self.cuts.len() ==> #[trigger] self.cuts[i] < #[trigger] self.cuts[j]
        &&& forall|i: int| 0 <= i < self.headers.len() ==> 20 <= #[trigger] self.headers[i] <= 60
        &&& self.bytes.len() + self.prefix_len <= 65535
        &&& if self.key.source is V4 {
            forall|i: int|
                0 <= i < self.headers.len() ==> #[trigger] self.headers[i] + self.bytes.len()
                    <= 65535
        } else {
            &&& complete_header(self.protocol, self.data(0))
            &&& forall|i: int|
                0 <= i < self.count() - 1 ==> #[trigger] self.data(i).len() % 8 == 0
        }
    }

    pub open spec fn count(self) -> int {
        self.headers.len() as int
    }

    pub open spec fn start(self, i: int) -> int {
        self.cuts[i]
    }

    pub open spec fn end(self, i: int) -> int {
        self.cuts[i + 1]
    }

    /// The bytes of part `i`.
    pub open spec fn data(self, i: int) -> Seq<u8> {
        self.bytes.subrange(self.start(i), self.end(i))
    }

    /// A position lies in part `i`.
    pub open spec fn in_part(self, i: int, p: int) -> bool {
        0 <= i < self.count() && self.start(i) <= p < self.end(i)
    }

    /// Part `i` as the decoder sees it.
    pub open spec fn piece(self, i: int, expires: u64) -> Piece {
        Piece {
            key: self.key,
            protocol: self.protocol,
            header_len: self.headers[i],
            fragment: Fragment {
                id: self.key.id,
                offset: self.start(i) as usize,
                more: i + 1 < self.count(),
                prefix_len: self.prefix_len,
            },
            expires,
            binding: self.binding,
        }
    }

    /// The positions of the parts in a set.
    pub open spec fn arrived(self, done: Set<int>) -> Set<int> {
        Set::new(|p: int| exists|i: int| done.contains(i) && #[trigger] self.in_part(i, p))
    }

    /// An incomplete datagram that holds the parts in a set and nothing else.
    pub open spec fn progress(self, a: AssemblyView, done: Set<int>) -> bool {
        &&& a.key == self.key
        &&& a.binding == self.binding
        &&& a.expires == self.expires
        &&& a.protocol == self.protocol
        &&& a.prefix_len == self.prefix_len
        &&& a.key.source is V4 ==> a.header_len + self.bytes.len() <= 65535
        &&& !a.poisoned
        &&& a.covered == self.arrived(done)
        &&& a.data.len() <= self.bytes.len()
        &&& a.covered.subset_of(span(0, a.data.len() as int))
        &&& forall|p: int| a.covered.contains(p) ==> #[trigger] a.data[p] == self.bytes[p]
        &&& a.total == if done.contains(self.count() - 1) {
            Some(self.bytes.len() as int)
        } else {
            None
        }
    }

    /// The indices of all parts.
    pub open spec fn all(self) -> Set<int> {
        Set::new(|i: int| 0 <= i < self.count())
    }

    /// A part lies within the datagram and is not empty; only the first starts at
    /// zero, and only the last ends at its end.
    proof fn lemma_bounds(self, i: int)
        requires
            self.wf(),
            0 <= i < self.count(),
        ensures
            0 <= self.start(i) < self.end(i) <= self.bytes.len() <= 65535,
            self.data(i).len() == self.end(i) - self.start(i),
            self.start(i) == 0 <==> i == 0,
            self.end(i) == self.bytes.len() <==> i + 1 == self.count(),
    {
        assert(self.cuts[i] < self.cuts[i + 1]);
        if i > 0 {
            assert(self.cuts[0] < self.cuts[i]);
        }
        if i + 1 < self.count() {
            assert(self.cuts[i + 1] < self.cuts[self.count()]);
        }
    }

    /// A position lies in one part at most.
    proof fn lemma_one_part(self, i: int, j: int, p: int)
        requires
            self.wf(),
            self.in_part(i, p),
            self.in_part(j, p),
        ensures
            i == j,
    {
        if i < j {
            if i + 1 < j {
                assert(self.cuts[i + 1] < self.cuts[j]);
            }
        } else if j < i {
            if j + 1 < i {
                assert(self.cuts[j + 1] < self.cuts[i]);
            }
        }
    }

    /// The part that a position lies in.
    proof fn lemma_part_at(self, p: int, k: int) -> (i: int)
        requires
            self.wf(),
            0 < k <= self.count(),
            0 <= p < self.cuts[k],
        ensures
            0 <= i < k,
            self.in_part(i, p),
        decreases k,
    {
        if self.cuts[k - 1] <= p {
            k - 1
        } else {
            self.lemma_part_at(p, k - 1)
        }
    }
}

/// A new part of a datagram that fits the allowance and the record of arrivals
/// brings the datagram one part further.
pub proof fn law_part_makes_progress(
    cut: Cut,
    a: AssemblyView,
    done: Set<int>,
    i: int,
    expires: u64,
    limits: Limits,
)
    requires
        cut.wf(),
        cut.progress(a, done),
        done.subset_of(cut.all()),
        0 <= i < cut.count(),
        !done.contains(i),
        recordable(a.covered, cut.start(i), cut.end(i)),
        limits.used >= a.charged(),
        limits.used - a.charged() + ASSEMBLY_BYTES + cut.bytes.len() <= limits.target,
    ensures
        cut.progress(a.offer(cut.piece(i, expires), cut.data(i), limits), done.insert(i)),
{
    let n = cut.bytes.len() as int;
    let data = cut.data(i);
    let piece = cut.piece(i, expires);
    let offset = cut.start(i);
    let end = cut.end(i);
    cut.lemma_bounds(i);
    assert(piece.fragment.offset == offset);
    let after = a.write(piece, data);
    assert(!overlaps(a.covered, offset, end)) by {
        if overlaps(a.covered, offset, end) {
            let p = choose|p: int| offset <= p < end && a.covered.contains(p);
            let j = choose|j: int| done.contains(j) && #[trigger] cut.in_part(j, p);
            cut.lemma_one_part(i, j, p);
        }
    }
    if cut.key.source is V6 {
        assert(!a.malformed_v6(piece, data));
    } else {
        assert(!a.misfit_v4(piece, data));
    }
    assert(a.offer(piece, data, limits) == after);
    assert(after.covered =~= cut.arrived(done.insert(i))) by {
        assert forall|p: int| after.covered.contains(p) <==> cut.arrived(done.insert(i)).contains(
            p,
        ) by {
            if offset <= p < end {
                assert(cut.in_part(i, p));
            }
            if a.covered.contains(p) {
                let j = choose|j: int| done.contains(j) && #[trigger] cut.in_part(j, p);
                assert(done.insert(i).contains(j) && cut.in_part(j, p));
            }
            if cut.arrived(done.insert(i)).contains(p) {
                let j = choose|j: int|
                    done.insert(i).contains(j) && #[trigger] cut.in_part(j, p);
                if j != i {
                    assert(done.contains(j) && cut.in_part(j, p));
                }
            }
        }
    }
    assert(after.covered.subset_of(span(0, after.data.len() as int)));
    assert forall|p: int| after.covered.contains(p) implies #[trigger] after.data[p]
        == cut.bytes[p] by {
        if offset <= p < end {
            assert(data[p - offset] == cut.bytes[p]);
        } else {
            assert(a.covered.contains(p));
            assert(a.data[p] == cut.bytes[p]);
        }
    }
    assert(after.total == if done.insert(i).contains(cut.count() - 1) {
        Some(n)
    } else {
        None::<int>
    });
    assert(after.data.len() <= n);
}

/// A datagram is complete exactly when all of its parts have come, and then it
/// holds their bytes.
pub proof fn law_complete_when_all_came(cut: Cut, a: AssemblyView, done: Set<int>)
    requires
        cut.wf(),
        cut.progress(a, done),
        done.subset_of(cut.all()),
    ensures
        a.complete() <==> done == cut.all(),
        a.complete() ==> a.data == cut.bytes,
{
    let n = cut.bytes.len() as int;
    cut.lemma_bounds(cut.count() - 1);
    if done == cut.all() {
        assert(done.contains(cut.count() - 1));
        assert forall|p: int| 0 <= p < n implies a.covered.contains(p) by {
            let i = cut.lemma_part_at(p, cut.count());
            assert(done.contains(i) && cut.in_part(i, p));
        }
        assert(!a.covered.contains(n));
        assert(a.complete());
    }
    if a.complete() {
        assert forall|i: int| cut.all().contains(i) implies done.contains(i) by {
            cut.lemma_bounds(i);
            let p = cut.start(i);
            assert(cut.in_part(i, p));
            assert(a.covered.contains(p));
            let j = choose|j: int| done.contains(j) && #[trigger] cut.in_part(j, p);
            cut.lemma_one_part(i, j, p);
        }
        assert(done =~= cut.all());
        assert(a.covered.contains(n - 1));
        assert(a.data[n - 1] == cut.bytes[n - 1]);
        assert(a.data.len() == n);
        assert forall|p: int| 0 <= p < n implies a.data[p] == cut.bytes[p] by {
            assert(a.covered.contains(p));
        }
        assert(a.data =~= cut.bytes);
    }
}

/// The decoder holds some parts of a datagram, and the allowance has room for the
/// rest.
pub open spec fn waiting(
    cut: Cut,
    s: Seq<AssemblyView>,
    limits: Limits,
    done: Set<int>,
) -> bool {
    let a = s[slot(s, cut.key)];
    &&& distinct(s)
    &&& leased(s) <= limits.used
    &&& holds(s, cut.key)
    &&& cut.progress(a, done)
    &&& done.subset_of(cut.all())
    &&& limits.used - a.charged() + ASSEMBLY_BYTES + cut.bytes.len() <= limits.target
}

/// A key has one place.
proof fn lemma_slot(s: Seq<AssemblyView>, key: FragmentKey, i: int)
    requires
        distinct(s),
        0 <= i < s.len(),
        s[i].key == key,
    ensures
        holds(s, key),
        slot(s, key) == i,
{
    let j = slot(s, key);
    assert(0 <= j < s.len() && s[j].key == key);
}

/// A datagram whose time is not over stays as it is when others expire.
proof fn lemma_alive_slot(s: Seq<AssemblyView>, key: FragmentKey, now: u64)
    requires
        distinct(s),
    ensures
        holds(alive(s, now), key) <==> holds(s, key) && s[slot(s, key)].expires > now,
        holds(alive(s, now), key) ==> alive(s, now)[slot(alive(s, now), key)] == s[slot(s, key)],
{
    let live = alive(s, now);
    lemma_alive(s, now);
    if holds(s, key) && s[slot(s, key)].expires > now {
        let a = s[slot(s, key)];
        assert(live.contains(a));
        let j = choose|j: int| 0 <= j < live.len() && live[j] == a;
        lemma_slot(live, key, j);
    }
    if holds(live, key) {
        let j = slot(live, key);
        assert(live[j].key == key);
        assert(s.contains(live[j]));
        let i = choose|i: int| 0 <= i < s.len() && s[i] == live[j];
        lemma_slot(s, key, i);
    }
}

/// One more part, offered to a decoder that already holds others.
proof fn lemma_offer_step(
    cut: Cut,
    s: Seq<AssemblyView>,
    limits: Limits,
    done: Set<int>,
    i: int,
    expires: u64,
)
    requires
        cut.wf(),
        waiting(cut, s, limits, done),
        0 <= i < cut.count(),
        !done.contains(i),
        recordable(cut.arrived(done), cut.start(i), cut.end(i)),
    ensures
        ({
            let out = after_offer(
                s,
                limits,
                cut.piece(i, expires),
                cut.data(i),
            );
            if done.insert(i) == cut.all() {
                out.2 == Some(cut.bytes) && !holds(out.0, cut.key)
            } else {
                out.2 is None && waiting(cut, out.0, out.1, done.insert(i))
            }
        }),
{
    let k = slot(s, cut.key);
    let piece = cut.piece(i, expires);
    let data = cut.data(i);
    let b = s[k].offer(piece, data, limits);
    lemma_leased_at(s, k, b);
    law_part_makes_progress(cut, s[k], done, i, expires, limits);
    law_complete_when_all_came(cut, b, done.insert(i));
    let out = after_offer(s, limits, piece, data);
    if b.complete() {
        assert forall|j: int| 0 <= j < out.0.len() implies (#[trigger] out.0[j]).key != cut.key by {
            let m = if j < k {
                j
            } else {
                j + 1
            };
            assert(out.0[j] == s[m]);
        }
    } else {
        assert(out.0[k] == b);
        assert(distinct(out.0)) by {
            assert forall|x: int, y: int| 0 <= x < y < out.0.len() implies (#[trigger] out.0[x]).key
                != (#[trigger] out.0[y]).key by {
                assert(s[x].key != s[y].key);
            }
        }
        lemma_slot(out.0, cut.key, k);
    }
}

/// A part of a datagram, taken in by a decoder that holds none or some of the
/// others.
proof fn lemma_reassembled_step(
    cut: Cut,
    s: Seq<AssemblyView>,
    limits: Limits,
    done: Set<int>,
    i: int,
    expires: u64,
)
    requires
        cut.wf(),
        distinct(s),
        leased(s) <= limits.used,
        done.subset_of(cut.all()),
        0 <= i < cut.count(),
        !done.contains(i),
        recordable(cut.arrived(done), cut.start(i), cut.end(i)),
        done =~= Set::<int>::empty() ==> !holds(s, cut.key) && expires == cut.expires
            && limits.used + ASSEMBLY_BYTES + cut.bytes.len() <= limits.target,
        !(done =~= Set::<int>::empty()) ==> waiting(cut, s, limits, done),
    ensures
        ({
            let out = reassembled(
                s,
                limits,
                cut.piece(i, expires),
                cut.data(i),
            );
            if done.insert(i) == cut.all() {
                out.2 == Some(cut.bytes) && !holds(out.0, cut.key)
            } else {
                out.2 is None && waiting(cut, out.0, out.1, done.insert(i))
            }
        }),
{
    let piece = cut.piece(i, expires);
    if done =~= Set::<int>::empty() {
        let t = s.push(fresh(piece));
        let accounts = limits.after(0, ASSEMBLY_BYTES as int);
        assert(t[s.len() as int] == fresh(piece));
        assert(distinct(t)) by {
            assert forall|x: int, y: int| 0 <= x < y < t.len() implies (#[trigger] t[x]).key != (
            #[trigger] t[y]).key by {
                assert(t[x] == s[x]);
                if y < s.len() {
                    assert(t[y] == s[y]);
                }
            }
        }
        lemma_slot(t, cut.key, s.len() as int);
        assert(t.drop_last() =~= s);
        assert(fresh(piece).covered =~= cut.arrived(done));
        assert(cut.progress(fresh(piece), done));
        lemma_offer_step(cut, t, accounts, done, i, expires);
    } else {
        lemma_offer_step(cut, s, limits, done, i, expires);
    }
}

/// What a decoder holds, what the accounts say, and which packets it has handed
/// out, after frames have come one by one.
pub struct Run {
    pub state: Seq<AssemblyView>,
    pub limits: Limits,
    pub packets: Seq<(IpHeader, Seq<u8>)>,
}

/// The run of a decoder over frames, each with its time of arrival.
pub open spec fn run(s: Seq<AssemblyView>, limits: Limits, frames: Seq<(Seq<u8>, u64)>) -> Run
    decreases frames.len(),
{
    if frames.len() == 0 {
        Run { state: s, limits, packets: Seq::empty() }
    } else {
        let before = run(s, limits, frames.drop_last());
        let (frame, now) = frames.last();
        let after = decoded(
            before.state,
            before.limits,
            spec_parse(frame),
            now,
            (now + REASSEMBLY_LIFETIME) as u64,
            None,
        );
        Run {
            state: after.0,
            limits: after.1,
            packets: match after.2 {
                Some(packet) => before.packets.push(packet),
                None => before.packets,
            },
        }
    }
}

/// Where a decoder stands before or between fragments of a datagram, when a frame
/// arrives at `now`.
pub open spec fn ready(
    cut: Cut,
    s: Seq<AssemblyView>,
    limits: Limits,
    done: Set<int>,
    now: u64,
) -> bool {
    if done =~= Set::<int>::empty() {
        &&& distinct(s)
        &&& leased(s) <= limits.used
        &&& !holds(s, cut.key) || s[slot(s, cut.key)].expires <= now
        &&& limits.used + ASSEMBLY_BYTES + cut.bytes.len() <= limits.target
        &&& cut.expires == now + REASSEMBLY_LIFETIME
    } else {
        waiting(cut, s, limits, done) && now < cut.expires
    }
}

/// One frame of a datagram, read by a decoder that is ready for it.
proof fn lemma_decoded_step(
    cut: Cut,
    s: Seq<AssemblyView>,
    limits: Limits,
    done: Set<int>,
    i: int,
    now: u64,
    p: ParsedView,
)
    requires
        cut.wf(),
        cut.binding is None,
        now + REASSEMBLY_LIFETIME <= u64::MAX,
        done.subset_of(cut.all()),
        0 <= i < cut.count(),
        !done.contains(i),
        ready(cut, s, limits, done, now),
        recordable(cut.arrived(done), cut.start(i), cut.end(i)),
        p.fragment is Some,
        piece_of(p, (now + REASSEMBLY_LIFETIME) as u64, None) == cut.piece(
            i,
            (now + REASSEMBLY_LIFETIME) as u64,
        ),
        p.payload == cut.data(i),
    ensures
        ({
            let out = decoded(
                s,
                limits,
                Some(p),
                now,
                (now + REASSEMBLY_LIFETIME) as u64,
                None,
            );
            if done.insert(i) == cut.all() {
                &&& out.2 == Some(
                    (IpHeader { payload_len: cut.bytes.len() as usize, ..p.ip }, cut.bytes),
                )
                &&& !holds(out.0, cut.key)
            } else {
                &&& out.2 is None
                &&& waiting(cut, out.0, out.1, done.insert(i))
            }
        }),
{
    let live = alive(s, now);
    let accounts = limits.after(leased(s), leased(live));
    lemma_alive(s, now);
    lemma_alive_slot(s, cut.key, now);
    lemma_leased_nonnegative(live);
    if !(done =~= Set::<int>::empty()) {
        let j = slot(live, cut.key);
        assert(live[j] == s[slot(s, cut.key)]);
        assert(waiting(cut, live, accounts, done));
    }
    lemma_reassembled_step(cut, live, accounts, done, i, (now + REASSEMBLY_LIFETIME) as u64);
}

/// The fragments of one datagram, as frames that come one after another, each with
/// its time. Frame `k` carries part `order[k]`.
pub struct Feed {
    pub cut: Cut,
    pub frames: Seq<(Seq<u8>, u64)>,
    pub order: Seq<int>,
}

impl Feed {
    /// The parts that the first `k` frames carry.
    pub open spec fn came(self, k: int) -> Set<int> {
        Set::new(|i: int| exists|j: int| 0 <= j < k && #[trigger] self.order[j] == i)
    }

    /// What frame `k` says.
    pub open spec fn parsed(self, k: int) -> ParsedView {
        spec_parse(self.frames[k].0)->0
    }

    /// Frame `k` is a valid fragment, and carries its part.
    pub open spec fn carries(self, k: int) -> bool {
        let p = self.parsed(k);
        &&& spec_parse(self.frames[k].0) is Some
        &&& p.fragment is Some
        &&& piece_of(p, 0, None) == self.cut.piece(self.order[k], 0)
        &&& p.payload == self.cut.data(self.order[k])
    }

    /// Each fragment comes once, within the lifetime that the first of them starts.
    pub open spec fn each_once(self) -> bool {
        let n = self.frames.len() as int;
        &&& self.cut.wf()
        &&& self.cut.binding is None
        &&& self.cut.count() == n
        &&& self.order.len() == n
        &&& self.cut.expires == self.frames[0].1 + REASSEMBLY_LIFETIME
        &&& forall|k: int| 0 <= k < n ==> 0 <= #[trigger] self.order[k] < n
        &&& forall|j: int, k: int|
            0 <= j < k < n ==> #[trigger] self.order[j] != #[trigger] self.order[k]
        &&& forall|i: int| 0 <= i < n ==> #[trigger] self.came(n).contains(i)
        &&& forall|k: int|
            0 <= k < n ==> (#[trigger] self.frames[k]).1 < self.cut.expires && self.frames[k].1
                + REASSEMBLY_LIFETIME <= u64::MAX
        &&& forall|k: int| 0 <= k < n ==> #[trigger] self.carries(k)
    }

    /// What has come before frame `k` leaves room for its part among the runs that
    /// the decoder records.
    pub open spec fn recordable_at(self, k: int) -> bool {
        recordable(
            self.cut.arrived(self.came(k)),
            self.cut.start(self.order[k]),
            self.cut.end(self.order[k]),
        )
    }

    /// Each fragment comes once, and what has come never falls apart into more runs
    /// than the decoder records.
    pub open spec fn wf(self) -> bool {
        &&& self.each_once()
        &&& forall|k: int| 0 <= k < self.frames.len() ==> #[trigger] self.recordable_at(k)
    }
}

/// The parts that have come before frame `k`, and with it.
proof fn lemma_came(feed: Feed, k: int)
    requires
        feed.each_once(),
        1 <= k <= feed.frames.len(),
    ensures
        !feed.came(k - 1).contains(feed.order[k - 1]),
        feed.came(k - 1).insert(feed.order[k - 1]) == feed.came(k),
        feed.came(k - 1).subset_of(feed.cut.all()),
        k == 1 <==> feed.came(k - 1) =~= Set::<int>::empty(),
        feed.came(k) == feed.cut.all() <==> k == feed.frames.len(),
{
    let cut = feed.cut;
    let i = feed.order[k - 1];
    let done = feed.came(k - 1);
    assert forall|x: int| done.insert(i).contains(x) <==> feed.came(k).contains(x) by {
        if feed.came(k).contains(x) && x != i {
            let j = choose|j: int| 0 <= j < k && #[trigger] feed.order[j] == x;
            assert(j < k - 1);
        }
        if done.contains(x) {
            let j = choose|j: int| 0 <= j < k - 1 && #[trigger] feed.order[j] == x;
            assert(feed.order[j] == x);
        }
    }
    assert(done.insert(i) =~= feed.came(k));
    if k > 1 {
        assert(done.contains(feed.order[0]));
    }
    if k < feed.frames.len() {
        let last = feed.order[k];
        assert(cut.all().contains(last));
        if feed.came(k).contains(last) {
            let j = choose|j: int| 0 <= j < k && #[trigger] feed.order[j] == last;
        }
    } else {
        assert(feed.came(k) =~= cut.all());
    }
}

/// Where a decoder stands after the first `k` fragments.
proof fn lemma_run(s: Seq<AssemblyView>, limits: Limits, feed: Feed, k: int)
    requires
        feed.wf(),
        ready(feed.cut, s, limits, Set::empty(), feed.frames[0].1),
        1 <= k <= feed.frames.len(),
    ensures
        ({
            let out = run(s, limits, feed.frames.take(k));
            if k < feed.frames.len() {
                &&& out.packets =~= Seq::<(IpHeader, Seq<u8>)>::empty()
                &&& waiting(feed.cut, out.state, out.limits, feed.came(k))
            } else {
                &&& out.packets =~= seq![
                    (
                        IpHeader {
                            payload_len: feed.cut.bytes.len() as usize,
                            ..feed.parsed(k - 1).ip
                        },
                        feed.cut.bytes,
                    ),
                ]
                &&& !holds(out.state, feed.cut.key)
            }
        }),
    decreases k,
{
    let cut = feed.cut;
    let i = feed.order[k - 1];
    let now = feed.frames[k - 1].1;
    let done = feed.came(k - 1);
    assert(feed.frames.take(k).drop_last() =~= feed.frames.take(k - 1));
    lemma_came(feed, k);
    assert(feed.carries(k - 1));
    assert(feed.recordable_at(k - 1));
    if k > 1 {
        lemma_run(s, limits, feed, k - 1);
    } else {
        assert(feed.frames.take(0) =~= Seq::<(Seq<u8>, u64)>::empty());
    }
    let before = run(s, limits, feed.frames.take(k - 1));
    lemma_decoded_step(cut, before.state, before.limits, done, i, now, feed.parsed(k - 1));
}

/// The consistent fragments of a datagram, however it was cut, complete it with the
/// last of them and not before: the decoder then hands out one packet with all of its
/// bytes, and keeps nothing of it.
pub proof fn law_consistent_fragments_complete(
    s: Seq<AssemblyView>,
    limits: Limits,
    feed: Feed,
    k: int,
)
    requires
        feed.wf(),
        ready(feed.cut, s, limits, Set::empty(), feed.frames[0].1),
        0 <= k < feed.frames.len(),
    ensures
        run(s, limits, feed.frames.take(k)).packets.len() == 0,
        ({
            let out = run(s, limits, feed.frames);
            let last = feed.parsed(feed.frames.len() - 1);
            &&& out.packets == seq![
                (
                    IpHeader { payload_len: feed.cut.bytes.len() as usize, ..last.ip },
                    feed.cut.bytes,
                ),
            ]
            &&& !holds(out.state, feed.cut.key)
        }),
{
    let n = feed.frames.len() as int;
    lemma_run(s, limits, feed, n);
    assert(feed.frames.take(n) =~= feed.frames);
    if k > 0 {
        lemma_run(s, limits, feed, k);
    } else {
        assert(feed.frames.take(0) =~= Seq::<(Seq<u8>, u64)>::empty());
    }
}

/// Fragments that come in the order of their places in the datagram, or in reverse,
/// can always be recorded.
pub proof fn law_straight_orders_can_be_recorded(feed: Feed)
    requires
        feed.each_once(),
        (forall|k: int| 0 <= k < feed.order.len() ==> #[trigger] feed.order[k] == k) || (forall|
            k: int,
        |
            0 <= k < feed.order.len() ==> #[trigger] feed.order[k] == feed.order.len() - 1 - k),
    ensures
        feed.wf(),
{
    let cut = feed.cut;
    assert forall|k: int| 0 <= k < feed.frames.len() implies #[trigger] feed.recordable_at(k) by {
        let arrived = cut.arrived(feed.came(k));
        let i = feed.order[k];
        cut.lemma_bounds(i);
        if k == 0 {
            assert(arrived =~= Set::<int>::empty());
            assert(arrived.filter(|p: int| !arrived.contains(p - 1)) =~= Set::<int>::empty());
        } else {
            let j = feed.order[k - 1];
            cut.lemma_bounds(j);
            assert(feed.came(k).contains(j));
            let p = if i == j + 1 {
                cut.start(i) - 1
            } else {
                cut.end(i)
            };
            assert(feed.came(k).contains(j) && cut.in_part(j, p));
            assert(arrived.contains(p));
            assert(touches(arrived, cut.start(i), cut.end(i)));
        }
    }
}

/// No two incomplete datagrams share a key after another frame either.
proof fn lemma_decoded_distinct(
    s: Seq<AssemblyView>,
    limits: Limits,
    parsed: Option<ParsedView>,
    now: u64,
    expires: u64,
)
    requires
        distinct(s),
    ensures
        distinct(decoded(s, limits, parsed, now, expires, None).0),
{
    if parsed is Some && (parsed->0).fragment is Some {
        let p = parsed->0;
        let live = alive(s, now);
        let accounts = limits.after(leased(s), leased(live));
        let piece = piece_of(p, expires, None);
        lemma_alive(s, now);
        let (rest, left) = without_stale(live, accounts, piece);
        assert(distinct(rest)) by {
            if holds(live, piece.key) {
                lemma_distinct_at(live, slot(live, piece.key), live[slot(live, piece.key)]);
            }
        }
        if holds(rest, piece.key) {
            let i = slot(rest, piece.key);
            lemma_distinct_at(rest, i, rest[i].offer(piece, p.payload, left));
        } else {
            let t = rest.push(fresh(piece));
            assert(distinct(t)) by {
                assert forall|x: int, y: int| 0 <= x < y < t.len() implies (#[trigger] t[x]).key
                    != (#[trigger] t[y]).key by {
                    assert(t[x] == rest[x]);
                    if y < rest.len() {
                        assert(t[y] == rest[y]);
                    }
                }
            }
            lemma_slot(t, piece.key, rest.len() as int);
            let i = slot(t, piece.key);
            let accounts = left.after(0, ASSEMBLY_BYTES as int);
            lemma_distinct_at(t, i, t[i].offer(piece, p.payload, accounts));
        }
    }
}

/// Datagrams stay distinct when one leaves or changes.
proof fn lemma_distinct_at(s: Seq<AssemblyView>, i: int, a: AssemblyView)
    requires
        distinct(s),
        0 <= i < s.len(),
        a.key == s[i].key,
    ensures
        distinct(s.remove(i)),
        distinct(s.update(i, a)),
{
    let r = s.remove(i);
    assert forall|x: int, y: int| 0 <= x < y < r.len() implies (#[trigger] r[x]).key != (
    #[trigger] r[y]).key by {
        let ox = if x < i {
            x
        } else {
            x + 1
        };
        let oy = if y < i {
            y
        } else {
            y + 1
        };
        assert(s[ox].key != s[oy].key);
    }
    let u = s.update(i, a);
    assert forall|x: int, y: int| 0 <= x < y < u.len() implies (#[trigger] u[x]).key != (
    #[trigger] u[y]).key by {
        assert(s[x].key != s[y].key);
    }
}

/// A datagram whose time is not over, and of which the frame is no fragment, stays.
proof fn lemma_others_stay(
    s: Seq<AssemblyView>,
    limits: Limits,
    parsed: Option<ParsedView>,
    now: u64,
    expires: u64,
    other: AssemblyView,
)
    requires
        distinct(s),
        s.contains(other),
        other.expires > now,
        parsed matches Some(p) ==> p.fragment is None || p.key() != other.key,
    ensures
        decoded(s, limits, parsed, now, expires, None).0.contains(other),
{
    if parsed is Some && (parsed->0).fragment is Some {
        let p = parsed->0;
        let live = alive(s, now);
        let accounts = limits.after(leased(s), leased(live));
        lemma_alive(s, now);
        let i = choose|i: int| 0 <= i < s.len() && s[i] == other;
        assert(live.contains(s[i]));
        law_datagrams_stay_separate(
            live,
            accounts,
            piece_of(p, expires, None),
            p.payload,
            other,
        );
    }
}

/// While the fragments of a datagram come, every other datagram whose time is not
/// over stays as it is.
pub proof fn law_other_datagrams_stay(
    s: Seq<AssemblyView>,
    limits: Limits,
    feed: Feed,
    other: AssemblyView,
    k: int,
)
    requires
        feed.each_once(),
        distinct(s),
        s.contains(other),
        other.key != feed.cut.key,
        forall|j: int| 0 <= j < feed.frames.len() ==> (#[trigger] feed.frames[j]).1 < other.expires,
        0 <= k <= feed.frames.len(),
    ensures
        run(s, limits, feed.frames.take(k)).state.contains(other),
        distinct(run(s, limits, feed.frames.take(k)).state),
    decreases k,
{
    if k > 0 {
        law_other_datagrams_stay(s, limits, feed, other, k - 1);
        assert(feed.frames.take(k).drop_last() =~= feed.frames.take(k - 1));
        let before = run(s, limits, feed.frames.take(k - 1));
        let (frame, now) = feed.frames[k - 1];
        let expires = (now + REASSEMBLY_LIFETIME) as u64;
        assert(feed.carries(k - 1));
        assert(piece_of(feed.parsed(k - 1), 0, None).key == feed.cut.key);
        lemma_decoded_distinct(before.state, before.limits, spec_parse(frame), now, expires);
        lemma_others_stay(
            before.state,
            before.limits,
            spec_parse(frame),
            now,
            expires,
            other,
        );
    } else {
        assert(feed.frames.take(0) =~= Seq::<(Seq<u8>, u64)>::empty());
    }
}

/// A datagram that was given up, and that a decoder keeps in mind.
pub open spec fn given_up(s: Seq<AssemblyView>, a: AssemblyView) -> bool {
    &&& distinct(s)
    &&& s.contains(a)
    &&& a.poisoned
    &&& a.covered =~= Set::<int>::empty()
    &&& a.wf()
    &&& a.binding is None
}

/// One frame, read by a decoder that keeps a datagram in mind which was given up.
proof fn lemma_given_up_step(
    s: Seq<AssemblyView>,
    limits: Limits,
    parsed: Option<ParsedView>,
    now: u64,
    expires: u64,
    a: AssemblyView,
)
    requires
        given_up(s, a),
        now < a.expires,
    ensures
        given_up(decoded(s, limits, parsed, now, expires, None).0, a),
        parsed matches Some(p) && p.fragment is Some && p.key() == a.key ==> decoded(
            s,
            limits,
            parsed,
            now,
            expires,
            None,
        ).2 is None,
{
    lemma_decoded_distinct(s, limits, parsed, now, expires);
    if parsed is Some && (parsed->0).fragment is Some && (parsed->0).key() == a.key {
        let p = parsed->0;
        let live = alive(s, now);
        let accounts = limits.after(leased(s), leased(live));
        let piece = piece_of(p, expires, None);
        lemma_alive(s, now);
        let i = choose|i: int| 0 <= i < s.len() && s[i] == a;
        assert(live.contains(s[i]));
        let j = choose|j: int| 0 <= j < live.len() && live[j] == a;
        lemma_slot(live, a.key, j);
        assert(!a.complete()) by {
            if a.complete() {
                assert(a.covered.contains(0));
            }
        }
        let out = after_offer(live, accounts, piece, p.payload);
        assert(out.0[j] == a);
    } else {
        lemma_others_stay(s, limits, parsed, now, expires, a);
    }
}

/// A datagram that was given up stays so until it expires, whatever comes meanwhile:
/// no fragment of it, whatever it carries, yields a packet, and none moves the time at
/// which it expires. From then on a fragment of its key starts afresh.
pub proof fn law_given_up_datagrams_yield_nothing(
    s: Seq<AssemblyView>,
    limits: Limits,
    a: AssemblyView,
    frames: Seq<(Seq<u8>, u64)>,
    p: ParsedView,
    now: u64,
)
    requires
        given_up(s, a),
        forall|k: int| 0 <= k < frames.len() ==> (#[trigger] frames[k]).1 < a.expires,
        p.fragment is Some,
        p.key() == a.key,
    ensures
        ({
            let before = run(s, limits, frames);
            let expires = (now + REASSEMBLY_LIFETIME) as u64;
            let out = decoded(before.state, before.limits, Some(p), now, expires, None);
            &&& given_up(before.state, a)
            &&& now < a.expires ==> out.2 is None && given_up(out.0, a)
            &&& now >= a.expires ==> !holds(alive(before.state, now), a.key)
        }),
    decreases frames.len(),
{
    if frames.len() > 0 {
        let rest = frames.drop_last();
        assert forall|k: int| 0 <= k < rest.len() implies (#[trigger] rest[k]).1 < a.expires by {
            assert(rest[k] == frames[k]);
        }
        law_given_up_datagrams_yield_nothing(s, limits, a, rest, p, now);
        let (frame, at) = frames.last();
        assert(frames[frames.len() - 1].1 < a.expires);
        let earlier = run(s, limits, rest);
        lemma_given_up_step(
            earlier.state,
            earlier.limits,
            spec_parse(frame),
            at,
            (at + REASSEMBLY_LIFETIME) as u64,
            a,
        );
    }
    let before = run(s, limits, frames);
    if now < a.expires {
        lemma_given_up_step(
            before.state,
            before.limits,
            Some(p),
            now,
            (now + REASSEMBLY_LIFETIME) as u64,
            a,
        );
    } else {
        lemma_alive_slot(before.state, a.key, now);
        let i = choose|i: int| 0 <= i < before.state.len() && before.state[i] == a;
        lemma_slot(before.state, a.key, i);
    }
}

/// A malformed fragment of an IPv6 datagram, such as one that repeats a byte, gives
/// the datagram up, whether it is the first of it or not, and yields nothing. The
/// datagram expires when it would have anyway.
pub proof fn law_malformed_fragments_give_up(
    s: Seq<AssemblyView>,
    limits: Limits,
    p: ParsedView,
    now: u64,
    expires: u64,
)
    requires
        distinct(s),
        leased(s) <= limits.used,
        p.wf(),
        p.fragment is Some,
        p.ip.source is V6,
        now < expires,
        forall|i: int| 0 <= i < s.len() ==> (#[trigger] s[i]).wf() && s[i].binding is None,
        ({
            let live = alive(s, now);
            let piece = piece_of(p, expires, None);
            if holds(live, p.key()) {
                let a = live[slot(live, p.key())];
                a.malformed_v6(piece, p.payload) && !a.poisoned
            } else {
                &&& fresh(piece).malformed_v6(piece, p.payload)
                &&& limits.after(leased(s), leased(live)).admits(0, ASSEMBLY_BYTES as int)
            }
        }),
    ensures
        ({
            let live = alive(s, now);
            let a = if holds(live, p.key()) {
                live[slot(live, p.key())].poison()
            } else {
                fresh(piece_of(p, expires, None)).poison()
            };
            let out = decoded(s, limits, Some(p), now, expires, None);
            &&& out.2 is None
            &&& given_up(out.0, a)
            &&& a.key == p.key()
            &&& a.expires > now
        }),
{
    let live = alive(s, now);
    let accounts = limits.after(leased(s), leased(live));
    let piece = piece_of(p, expires, None);
    lemma_alive(s, now);
    lemma_decoded_distinct(s, limits, Some(p), now, expires);
    let (t, left) = if holds(live, p.key()) {
        (live, accounts)
    } else {
        (live.push(fresh(piece)), accounts.after(0, ASSEMBLY_BYTES as int))
    };
    if holds(live, p.key()) {
        let j = slot(live, p.key());
        assert(s.contains(live[j]));
        let i = choose|i: int| 0 <= i < s.len() && s[i] == live[j];
        assert(s[i].wf());
    } else {
        assert(t[live.len() as int] == fresh(piece));
        assert(distinct(t)) by {
            assert forall|x: int, y: int| 0 <= x < y < t.len() implies (#[trigger] t[x]).key != (
            #[trigger] t[y]).key by {
                assert(t[x] == live[x]);
                if y < live.len() {
                    assert(t[y] == live[y]);
                }
            }
        }
        lemma_slot(t, p.key(), live.len() as int);
    }
    let k = slot(t, p.key());
    let a = t[k].offer(piece, p.payload, left);
    assert(a == t[k].poison());
    assert(!a.complete()) by {
        if a.complete() {
            assert(a.covered.contains(0));
        }
    }
    let out = after_offer(t, left, piece, p.payload);
    assert(out.0[k] == a);
}

} // verus!
