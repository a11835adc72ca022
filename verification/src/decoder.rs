//! Puts fragmented datagrams together, within the endpoint's shared allowance.
use crate::packet::{
    parse, spec_parse, Fragment, FragmentKey, Packet, Parsed, ParsedView, Payload,
};
use crate::ranges::{covered, overlapping, overlaps, record, recordable, span};
use crate::reassembly::{Lease, Limits};
use crate::wire::{complete_tcp_header, tcp_complete, IpHeader, ICMPV6, TCP, UDP};
use smoltcp::storage::Assembler;
use vstd::prelude::*;

verus! {

/// How long the parts of a datagram are kept after the first of them came, in
/// milliseconds.
pub const REASSEMBLY_LIFETIME: u64 = 60_000;

/// What an incomplete datagram counts for besides its bytes.
pub const ASSEMBLY_BYTES: usize = 256;

/// A part of a datagram on its way into the decoder. `expires` is when a datagram
/// that starts with it is given up; `binding` names the route that led it here.
pub struct Piece {
    pub key: FragmentKey,
    pub protocol: u8,
    pub header_len: usize,
    pub fragment: Fragment,
    pub expires: u64,
    pub binding: Option<u64>,
}

impl Piece {
    /// A part as a validated packet gives it: it ends within what its family can
    /// assemble, after a header of at most sixty bytes.
    pub open spec fn wf(self, data: Seq<u8>) -> bool {
        &&& self.fragment.offset <= 65535
        &&& 20 <= self.header_len <= 60
        &&& self.fragment.prefix_len <= 65535
        &&& data.len() <= 65535
        &&& self.key.source is V4 ==> data.len() > 0 && self.fragment.offset + data.len() <= 65515
    }
}

/// The route of a fragmented datagram, from its first frame to its expiry. No two
/// bindings share a number.
#[derive(Clone, Copy, Debug, PartialEq, Eq, Structural)]
pub struct Binding {
    pub number: u64,
    pub key: FragmentKey,
    pub expires: u64,
    pub shard: usize,
}

/// An incomplete datagram.
pub struct Assembly {
    key: FragmentKey,
    binding: Option<u64>,
    expires: u64,
    protocol: u8,
    prefix_len: usize,
    header_len: usize,
    total: Option<usize>,
    poisoned: bool,
    ranges: Assembler,
    data: Vec<u8>,
    lease: Lease,
}

/// The mathematical content of an incomplete datagram: which positions have
/// arrived, and what stands there.
#[verifier::ext_equal]
pub struct AssemblyView {
    pub key: FragmentKey,
    pub binding: Option<u64>,
    pub expires: u64,
    pub protocol: u8,
    pub prefix_len: int,
    pub header_len: int,
    pub total: Option<int>,
    pub poisoned: bool,
    pub covered: Set<int>,
    pub data: Seq<u8>,
}

impl View for Assembly {
    type V = AssemblyView;

    closed spec fn view(&self) -> AssemblyView {
        AssemblyView {
            key: self.key,
            binding: self.binding,
            expires: self.expires,
            protocol: self.protocol,
            prefix_len: self.prefix_len as int,
            header_len: self.header_len as int,
            total: match self.total {
                Some(total) => Some(total as int),
                None => None,
            },
            poisoned: self.poisoned,
            covered: covered(self.ranges),
            data: self.data@,
        }
    }
}

impl AssemblyView {
    /// What the datagram holds of the shared allowance.
    pub open spec fn charged(self) -> int {
        ASSEMBLY_BYTES + self.data.len()
    }

    /// Nothing is recorded beyond the bytes held, and nothing is held beyond a
    /// known end.
    pub open spec fn wf(self) -> bool {
        &&& self.data.len() <= 65535
        &&& self.covered.subset_of(span(0, self.data.len() as int))
        &&& self.total matches Some(total) ==> 0 < total <= 65535 && self.data.len() <= total
        &&& 20 <= self.header_len <= 60
    }

    /// Nothing of the datagram is kept, and nothing more is taken, until it
    /// expires.
    pub open spec fn poison(self) -> AssemblyView {
        AssemblyView {
            poisoned: true,
            covered: Set::empty(),
            data: Seq::empty(),
            ..self
        }
    }

    /// The datagram after the bytes of a part have been written into it.
    pub open spec fn write(self, piece: Piece, data: Seq<u8>) -> AssemblyView {
        let offset = piece.fragment.offset as int;
        let end = offset + data.len();
        AssemblyView {
            header_len: if offset == 0 {
                piece.header_len as int
            } else {
                self.header_len
            },
            total: if piece.fragment.more {
                self.total
            } else {
                Some(end)
            },
            covered: self.covered.union(span(offset, end)),
            data: overwrite(self.data, offset, data),
            ..self
        }
    }

    /// Every position up to the end has arrived.
    pub open spec fn complete(self) -> bool {
        self.total matches Some(total) && (forall|p: int|
            0 <= p < total ==> self.covered.contains(p)) && !self.covered.contains(total)
    }

    /// A part that contradicts where the datagram ends.
    pub open spec fn contradicts_end(self, end: int, more: bool) -> bool {
        ||| self.total matches Some(total) && (end > total || (!more && end != total))
        ||| !more && self.data.len() > end
    }

    /// A part that no valid IPv6 datagram can contain beside those that came: it
    /// is empty, too long, not a multiple of eight, repeats or contradicts
    /// another part, or comes first without the whole transport header.
    pub open spec fn malformed_v6(self, piece: Piece, data: Seq<u8>) -> bool {
        let offset = piece.fragment.offset as int;
        let end = offset + data.len();
        ||| data.len() == 0
        ||| end > 65535 - piece.fragment.prefix_len
        ||| piece.fragment.prefix_len != self.prefix_len
        ||| offset == 0 && !complete_header(piece.protocol, data)
        ||| piece.protocol != self.protocol
        ||| piece.fragment.more && data.len() % 8 != 0
        ||| self.contradicts_end(end, piece.fragment.more)
        ||| overlaps(self.covered, offset, end)
    }

    /// A part that does not fit an IPv4 datagram: it contradicts where the
    /// datagram ends, or makes the datagram longer, with the header of its first
    /// part, than a length field can say.
    pub open spec fn misfit_v4(self, piece: Piece, data: Seq<u8>) -> bool {
        let end = piece.fragment.offset + data.len();
        let after = self.write(piece, data);
        ||| self.contradicts_end(end, piece.fragment.more)
        ||| after.total matches Some(total) && after.header_len + total > 65535
    }

    /// What a part does to the datagram it belongs to: the datagram afterwards,
    /// and whether it is then complete. IPv6 gives up a datagram with a malformed
    /// part; IPv4 leaves a part out that does not fit, and lets a later part
    /// overwrite an earlier one.
    pub open spec fn offer(self, piece: Piece, data: Seq<u8>, limits: Limits) -> AssemblyView {
        let offset = piece.fragment.offset as int;
        let end = offset + data.len();
        let v4 = piece.key.source is V4;
        if self.poisoned {
            self
        } else if !v4 && self.malformed_v6(piece, data) {
            self.poison()
        } else if v4 && self.misfit_v4(piece, data) {
            self
        } else if !limits.admits(self.charged(), self.write(piece, data).charged()) {
            self
        } else if recordable(self.covered, offset, end) {
            self.write(piece, data)
        } else if v4 {
            self
        } else {
            self.poison()
        }
    }
}

/// `s`, as long as it takes, with `data` written over it from `at` on.
pub open spec fn overwrite(s: Seq<u8>, at: int, data: Seq<u8>) -> Seq<u8> {
    let end = at + data.len();
    Seq::new(
        (if s.len() > end {
            s.len() as int
        } else {
            end
        }) as nat,
        |i: int|
            if at <= i < end {
                data[i - at]
            } else if i < s.len() {
                s[i]
            } else {
                0
            },
    )
}

/// A first part that holds the whole transport header. TCP options belong to
/// that header; UDP and ICMP have eight fixed bytes.
pub open spec fn complete_header(protocol: u8, data: Seq<u8>) -> bool {
    if protocol == TCP {
        tcp_complete(data)
    } else {
        (protocol == UDP || protocol == ICMPV6) && data.len() >= 8
    }
}

/// Checks that a first IPv6 part holds the whole transport header.
pub fn complete_transport_header(protocol: u8, data: &[u8]) -> (r: bool)
    ensures
        r == complete_header(protocol, data@),
{
    if protocol == TCP {
        complete_tcp_header(data)
    } else {
        (protocol == UDP || protocol == ICMPV6) && data.len() >= 8
    }
}

/// A datagram of which nothing has arrived yet.
pub open spec fn fresh(piece: Piece) -> AssemblyView {
    AssemblyView {
        key: piece.key,
        binding: piece.binding,
        expires: piece.expires,
        protocol: piece.protocol,
        prefix_len: piece.fragment.prefix_len as int,
        header_len: 20,
        total: None,
        poisoned: false,
        covered: Set::empty(),
        data: Seq::empty(),
    }
}

impl Assembly {
    pub closed spec fn wf(self) -> bool {
        &&& self@.wf()
        &&& self.lease.bytes == self@.charged()
    }

    fn new(piece: &Piece, lease: Lease) -> (r: Assembly)
        requires
            lease.bytes == ASSEMBLY_BYTES,
        ensures
            r@ == fresh(*piece),
            r.wf(),
    {
        let r = Assembly {
            key: piece.key,
            binding: piece.binding,
            expires: piece.expires,
            protocol: piece.protocol,
            prefix_len: piece.fragment.prefix_len,
            header_len: 20,
            total: None,
            poisoned: false,
            ranges: Assembler::new(),
            data: Vec::new(),
            lease,
        };
        assert(r@.data =~= Seq::<u8>::empty());
        r
    }

    /// Gives the datagram's bytes up, and their share of the allowance with them.
    fn poison(&mut self, limits: &mut Limits)
        requires
            old(self)@.wf(),
            ASSEMBLY_BYTES <= old(self).lease.bytes <= old(limits).used,
        ensures
            final(self)@ == old(self)@.poison(),
            final(self).wf(),
            !final(self)@.complete(),
            *final(limits) == old(limits).after(
                old(self).lease.bytes as int,
                final(self)@.charged(),
            ),
    {
        self.ranges.clear();
        self.data = Vec::new();
        self.poisoned = true;
        let shrunk = limits.resize(&mut self.lease, ASSEMBLY_BYTES);
        assert(self@.data =~= Seq::<u8>::empty());
        assert(!self@.covered.contains(0));
    }

    /// Takes a part in. Tells whether the datagram is complete.
    fn accept(&mut self, piece: &Piece, data: &[u8], limits: &mut Limits) -> (r: bool)
        requires
            old(self).wf(),
            !old(self)@.complete(),
            old(self)@.charged() <= old(limits).used,
            old(self)@.key == piece.key,
            piece.wf(data@),
        ensures
            final(self)@ == old(self)@.offer(*piece, data@, *old(limits)),
            final(self).wf(),
            *final(limits) == old(limits).after(old(self)@.charged(), final(self)@.charged()),
            r == final(self)@.complete(),
    {
        if self.poisoned {
            return false;
        }
        let offset: usize = piece.fragment.offset;
        let more: bool = piece.fragment.more;
        let end: usize = offset + data.len();
        let contradiction: bool = match self.total {
            Some(total) => end > total || (!more && end != total),
            None => false,
        } || (!more && self.data.len() > end);
        let v4: bool = piece.key.source.is_ipv4();
        if v4 {
            let header: usize = if offset == 0 {
                piece.header_len
            } else {
                self.header_len
            };
            let oversize: bool = match (more, self.total) {
                (false, _) => header + end > 65535,
                (true, Some(total)) => header + total > 65535,
                (true, None) => false,
            };
            if contradiction || oversize {
                return false;
            }
        } else if data.len() == 0 || end > 65535 - piece.fragment.prefix_len
            || piece.fragment.prefix_len != self.prefix_len || (offset == 0
            && !complete_transport_header(piece.protocol, data)) || piece.protocol != self.protocol
            || (more && data.len() % 8 != 0) || contradiction || overlapping(
            &self.ranges,
            offset,
            end,
        ) {
            self.poison(limits);
            return false;
        }
        let len: usize = if self.data.len() > end {
            self.data.len()
        } else {
            end
        };
        let held: usize = self.lease.bytes;
        if !limits.resize(&mut self.lease, ASSEMBLY_BYTES + len) {
            return false;
        }
        if !record(&mut self.ranges, offset, data.len()) {
            if v4 {
                let shrunk = limits.resize(&mut self.lease, held);
            } else {
                self.poison(limits);
            }
            return false;
        }
        if !more {
            self.total = Some(end);
        }
        if offset == 0 {
            self.header_len = piece.header_len;
        }
        write_at(&mut self.data, offset, data);
        match self.total {
            Some(total) => total == self.ranges.peek_front(),
            None => false,
        }
    }
}

/// `Vec::reserve_exact`: the contents stay.
#[verifier::external_body]
fn reserve_exact(data: &mut Vec<u8>, additional: usize)
    requires
        old(data)@.len() + additional <= isize::MAX,
    ensures
        final(data)@ == old(data)@,
{
    data.reserve_exact(additional);
}

/// Writes bytes into a buffer, which grows to exactly what they need.
fn write_at(buffer: &mut Vec<u8>, at: usize, data: &[u8])
    requires
        at + data@.len() <= 0x2_0000,
    ensures
        final(buffer)@ == overwrite(old(buffer)@, at as int, data@),
{
    let end: usize = at + data.len();
    if end > buffer.len() {
        let additional: usize = end - buffer.len();
        reserve_exact(buffer, additional);
        buffer.resize(end, 0);
    }
    let mut i: usize = 0;
    while i < data.len()
        invariant
            i <= data@.len(),
            end == at + data@.len(),
            end <= 0x2_0000,
            buffer@.len() == overwrite(old(buffer)@, at as int, data@).len(),
            end <= buffer@.len(),
            forall|j: int|
                0 <= j < buffer@.len() && !(at + i <= j < end) ==> #[trigger] buffer@[j]
                    == overwrite(old(buffer)@, at as int, data@)[j],
        decreases data@.len() - i,
    {
        buffer[at + i] = data[i];
        i = i + 1;
    }
    assert(buffer@ =~= overwrite(old(buffer)@, at as int, data@));
}

/// Where the datagram of this key stands among the incomplete ones.
pub open spec fn slot(s: Seq<AssemblyView>, key: FragmentKey) -> int {
    choose|i: int| 0 <= i < s.len() && s[i].key == key
}

/// Whether a part of the datagram with this key has been kept.
pub open spec fn holds(s: Seq<AssemblyView>, key: FragmentKey) -> bool {
    exists|i: int| 0 <= i < s.len() && #[trigger] s[i].key == key
}

/// No two incomplete datagrams share a key.
pub open spec fn distinct(s: Seq<AssemblyView>) -> bool {
    forall|i: int, j: int| 0 <= i < j < s.len() ==> (#[trigger] s[i]).key != (#[trigger] s[j]).key
}

/// What incomplete datagrams hold of the allowance together.
pub open spec fn leased(s: Seq<AssemblyView>) -> int
    decreases s.len(),
{
    if s.len() == 0 {
        0
    } else {
        leased(s.drop_last()) + s.last().charged()
    }
}

/// The datagrams that have not expired.
pub open spec fn alive(s: Seq<AssemblyView>, now: u64) -> Seq<AssemblyView> {
    s.filter(|a: AssemblyView| a.expires > now)
}

/// The incomplete datagrams and the accounts, once a datagram that another route
/// left under the same key has been given up.
pub open spec fn without_stale(s: Seq<AssemblyView>, limits: Limits, piece: Piece) -> (
    Seq<AssemblyView>,
    Limits,
) {
    let i = slot(s, piece.key);
    if holds(s, piece.key) && s[i].binding != piece.binding {
        (s.remove(i), limits.after(s[i].charged(), 0))
    } else {
        (s, limits)
    }
}

/// The incomplete datagrams and the accounts after a part has been offered to
/// the datagram that it belongs to, and the bytes of that datagram if the part
/// completes it.
pub open spec fn after_offer(
    s: Seq<AssemblyView>,
    limits: Limits,
    piece: Piece,
    data: Seq<u8>,
) -> (Seq<AssemblyView>, Limits, Option<Seq<u8>>) {
    let i = slot(s, piece.key);
    let a = s[i].offer(piece, data, limits);
    let accounts = limits.after(s[i].charged(), a.charged());
    if a.complete() {
        (s.remove(i), accounts.learned(a.charged()).after(a.charged(), 0), Some(a.data))
    } else {
        (s.update(i, a), accounts, None)
    }
}

/// What a part does to the incomplete datagrams and to the accounts: a part of a
/// new datagram is kept only if the allowance has room for another one.
pub open spec fn reassembled(
    s: Seq<AssemblyView>,
    limits: Limits,
    piece: Piece,
    data: Seq<u8>,
) -> (Seq<AssemblyView>, Limits, Option<Seq<u8>>) {
    let (rest, accounts) = without_stale(s, limits, piece);
    if holds(rest, piece.key) {
        after_offer(rest, accounts, piece, data)
    } else if accounts.admits(0, ASSEMBLY_BYTES as int) {
        after_offer(
            rest.push(fresh(piece)),
            accounts.after(0, ASSEMBLY_BYTES as int),
            piece,
            data,
        )
    } else {
        (rest, accounts, None)
    }
}

/// The part that a validated fragment is.
pub open spec fn piece_of(p: ParsedView, expires: u64, binding: Option<u64>) -> Piece {
    Piece {
        key: p.key(),
        protocol: p.ip.protocol,
        header_len: p.header_len as usize,
        fragment: p.fragment->0,
        expires,
        binding,
    }
}

proof fn lemma_leased_push(s: Seq<AssemblyView>, a: AssemblyView)
    ensures
        leased(s.push(a)) == leased(s) + a.charged(),
{
    assert(s.push(a).drop_last() =~= s);
}

proof fn lemma_leased_concat(s: Seq<AssemblyView>, t: Seq<AssemblyView>)
    ensures
        leased(s + t) == leased(s) + leased(t),
    decreases t.len(),
{
    if t.len() == 0 {
        assert(s + t =~= s);
    } else {
        assert((s + t).drop_last() =~= s + t.drop_last());
        lemma_leased_concat(s, t.drop_last());
    }
}

/// What is held is never negative.
pub proof fn lemma_leased_nonnegative(s: Seq<AssemblyView>)
    ensures
        leased(s) >= 0,
    decreases s.len(),
{
    if s.len() > 0 {
        lemma_leased_nonnegative(s.drop_last());
    }
}

/// A datagram's share leaves the sum with it, and changes the sum as it changes.
pub proof fn lemma_leased_at(s: Seq<AssemblyView>, i: int, a: AssemblyView)
    requires
        0 <= i < s.len(),
    ensures
        leased(s.remove(i)) == leased(s) - s[i].charged(),
        leased(s.update(i, a)) == leased(s) - s[i].charged() + a.charged(),
        0 <= s[i].charged() <= leased(s),
{
    let before = s.take(i);
    let after = s.skip(i + 1);
    lemma_leased_push(before, s[i]);
    lemma_leased_push(before, a);
    assert(s =~= before.push(s[i]) + after);
    assert(s.update(i, a) =~= before.push(a) + after);
    assert(s.remove(i) =~= before + after);
    lemma_leased_concat(before.push(s[i]), after);
    lemma_leased_concat(before.push(a), after);
    lemma_leased_concat(before, after);
    lemma_leased_nonnegative(before);
    lemma_leased_nonnegative(after);
}

/// Filtering keeps or drops the next datagram.
proof fn lemma_alive_step(s: Seq<AssemblyView>, k: int, now: u64)
    requires
        0 <= k < s.len(),
    ensures
        alive(s.take(k + 1), now) == if s[k].expires > now {
            alive(s.take(k), now).push(s[k])
        } else {
            alive(s.take(k), now)
        },
{
    reveal(Seq::filter);
    assert(s.take(k + 1).drop_last() =~= s.take(k));
}

/// What has not expired is a part of what there was.
pub proof fn lemma_alive(s: Seq<AssemblyView>, now: u64)
    requires
        distinct(s),
    ensures
        distinct(alive(s, now)),
        forall|i: int|
            0 <= i < alive(s, now).len() ==> s.contains(#[trigger] alive(s, now)[i]) && alive(
                s,
                now,
            )[i].expires > now,
        forall|i: int|
            0 <= i < s.len() && (#[trigger] s[i]).expires > now ==> alive(s, now).contains(s[i]),
        leased(alive(s, now)) <= leased(s),
    decreases s.len(),
{
    reveal(Seq::filter);
    let out = alive(s, now);
    if s.len() > 0 {
        let rest = s.drop_last();
        let kept = alive(rest, now);
        lemma_alive(rest, now);
        lemma_leased_push(kept, s.last());
        assert(out == if s.last().expires > now {
            kept.push(s.last())
        } else {
            kept
        });
        assert forall|i: int| 0 <= i < out.len() implies s.contains(#[trigger] out[i])
            && out[i].expires > now by {
            if i < kept.len() {
                assert(out[i] == kept[i]);
                assert(rest.contains(kept[i]));
                let j = choose|j: int| 0 <= j < rest.len() && rest[j] == kept[i];
                assert(s[j] == out[i]);
            } else {
                assert(s[s.len() - 1] == out[i]);
            }
        }
        assert forall|i: int| 0 <= i < s.len() && (#[trigger] s[i]).expires > now implies out.contains(
            s[i],
        ) by {
            if i < rest.len() {
                assert(rest[i] == s[i]);
                assert(kept.contains(rest[i]));
                let j = choose|j: int| 0 <= j < kept.len() && kept[j] == rest[i];
                assert(out[j] == s[i]);
            } else {
                assert(out[out.len() - 1] == s[i]);
            }
        }
        assert forall|i: int, j: int| 0 <= i < j < out.len() implies (#[trigger] out[i]).key != (
        #[trigger] out[j]).key by {
            if j < kept.len() {
                assert(out[i] == kept[i] && out[j] == kept[j]);
            } else {
                assert(out[i] == kept[i]);
                assert(rest.contains(kept[i]));
                let k = choose|k: int| 0 <= k < rest.len() && rest[k] == kept[i];
                assert(s[k].key != s[s.len() - 1].key);
            }
        }
        lemma_leased_nonnegative(rest);
    }
}

/// Puts the datagrams of one worker together.
pub struct Decoder {
    assemblies: Vec<Assembly>,
}

impl View for Decoder {
    type V = Seq<AssemblyView>;

    closed spec fn view(&self) -> Seq<AssemblyView> {
        self.assemblies@.map_values(|a: Assembly| a@)
    }
}

impl Decoder {
    /// Every kept datagram is incomplete and has one place.
    pub closed spec fn wf(self) -> bool {
        &&& forall|i: int| 0 <= i < self.assemblies@.len() ==> (#[trigger] self.assemblies@[i]).wf()
        &&& forall|i: int|
            0 <= i < self@.len() ==> (#[trigger] self@[i]).wf() && !self@[i].complete()
        &&& distinct(self@)
    }

    pub fn new() -> (r: Decoder)
        ensures
            r.wf(),
            r@ == Seq::<AssemblyView>::empty(),
    {
        let r = Decoder { assemblies: Vec::new() };
        assert(r@ =~= Seq::<AssemblyView>::empty());
        r
    }

    /// When the next datagram expires.
    pub fn deadline(&self) -> (r: Option<u64>)
        ensures
            r is None <==> self@.len() == 0,
            r matches Some(at) ==> (exists|i: int| 0 <= i < self@.len() && self@[i].expires == at)
                && (forall|i: int| 0 <= i < self@.len() ==> at <= (#[trigger] self@[i]).expires),
    {
        let mut best: Option<u64> = None;
        let mut i: usize = 0;
        while i < self.assemblies.len()
            invariant
                i <= self.assemblies@.len() == self@.len(),
                best is None <==> i == 0,
                best matches Some(at) ==> (exists|j: int|
                    0 <= j < i && (#[trigger] self@[j]).expires == at) && (forall|j: int|
                    0 <= j < i ==> at <= (#[trigger] self@[j]).expires),
            decreases self.assemblies@.len() - i,
        {
            let expires: u64 = self.assemblies[i].expires;
            assert(self@[i as int].expires == expires);
            best = match best {
                Some(at) if at <= expires => Some(at),
                _ => Some(expires),
            };
            i = i + 1;
        }
        best
    }

    /// Gives up the datagrams whose time is over, and their shares with them.
    pub fn expire(&mut self, limits: &mut Limits, now: u64)
        requires
            old(self).wf(),
            leased(old(self)@) <= old(limits).used,
        ensures
            final(self).wf(),
            final(self)@ == alive(old(self)@, now),
            *final(limits) == old(limits).after(leased(old(self)@), leased(final(self)@)),
    {
        let mut i: usize = 0;
        let ghost all = self@;
        let ghost mut k: int = 0;
        proof {
            reveal(Seq::filter);
            assert(all.take(0) =~= Seq::<AssemblyView>::empty());
            assert(self@ =~= alive(all.take(0), now) + all.skip(0));
            lemma_alive(all, now);
            lemma_leased_nonnegative(all);
        }
        while i < self.assemblies.len()
            invariant
                self.wf(),
                distinct(all),
                all == old(self)@,
                0 <= k <= all.len(),
                i <= self@.len(),
                self@.len() == self.assemblies@.len(),
                i == alive(all.take(k), now).len(),
                self@ == alive(all.take(k), now) + all.skip(k),
                leased(self@) <= leased(all) <= old(limits).used,
                *limits == old(limits).after(leased(all), leased(self@)),
            decreases self.assemblies@.len() - i,
        {
            let ghost before = self@;
            proof {
                lemma_alive_step(all, k, now);
                assert(before[i as int] == all[k]);
                assert(self.assemblies@[i as int]@ == before[i as int]);
                lemma_leased_at(before, i as int, before[i as int]);
            }
            if self.assemblies[i].expires > now {
                proof {
                    assert(self@ =~= alive(all.take(k + 1), now) + all.skip(k + 1));
                }
                i = i + 1;
            } else {
                let ghost items = self.assemblies@;
                let gone = self.assemblies.remove(i);
                proof {
                    assert(self@ =~= before.remove(i as int));
                    assert(before.remove(i as int) =~= alive(all.take(k + 1), now) + all.skip(
                        k + 1,
                    ));
                    assert forall|j: int| 0 <= j < self.assemblies@.len() implies (
                    #[trigger] self.assemblies@[j]).wf() by {
                        assert(self.assemblies@[j] == items[if j < i {
                            j
                        } else {
                            j + 1
                        }]);
                    }
                    assert forall|j: int| 0 <= j < self@.len() implies (#[trigger] self@[j]).wf()
                        && !self@[j].complete() by {
                        assert(self@[j] == before[if j < i {
                            j
                        } else {
                            j + 1
                        }]);
                    }
                    assert(gone.wf());
                    assert(gone.lease.bytes == before[i as int].charged());
                }
                limits.release(gone.lease);
            }
            proof {
                k = k + 1;
            }
        }
        proof {
            assert(k == all.len()) by {
                assert(self@.len() == i + (all.len() - k));
            }
            assert(all.take(k) =~= all);
            assert(all.skip(k) =~= Seq::<AssemblyView>::empty());
            assert(self@ =~= alive(all, now));
        }
    }

    fn find(&self, key: &FragmentKey) -> (r: Option<usize>)
        requires
            self.wf(),
        ensures
            r is Some == holds(self@, *key),
            r matches Some(i) ==> i < self.assemblies@.len() && self@[i as int].key == *key && slot(
                self@,
                *key,
            ) == i,
    {
        let mut i: usize = 0;
        while i < self.assemblies.len()
            invariant
                self.wf(),
                i <= self.assemblies@.len() == self@.len(),
                forall|j: int| 0 <= j < i ==> (#[trigger] self@[j]).key != *key,
            decreases self.assemblies@.len() - i,
        {
            assert(self@[i as int].key == self.assemblies@[i as int].key);
            if self.assemblies[i].key == *key {
                assert(holds(self@, *key));
                return Some(i);
            }
            i = i + 1;
        }
        None
    }

    /// Removes the datagram at a place and gives its share back.
    fn forget(&mut self, limits: &mut Limits, i: usize) -> (r: Assembly)
        requires
            i < old(self).assemblies@.len(),
            old(self)@[i as int].charged() <= old(limits).used,
            old(self).assemblies@[i as int].lease.bytes == old(self)@[i as int].charged(),
            distinct(old(self)@),
            forall|j: int|
                0 <= j < old(self).assemblies@.len() && j != i ==> (
                #[trigger] old(self).assemblies@[j]).wf() && !old(self).assemblies@[j]@.complete(),
        ensures
            final(self).wf(),
            final(self)@ == old(self)@.remove(i as int),
            *final(limits) == old(limits).after(old(self)@[i as int].charged(), 0),
            r.data@ == old(self)@[i as int].data,
    {
        let ghost before = self@;
        let ghost items = self.assemblies@;
        let gone = self.assemblies.remove(i);
        proof {
            assert(self@ =~= before.remove(i as int));
            assert forall|j: int| 0 <= j < self.assemblies@.len() implies (
            #[trigger] self.assemblies@[j]).wf() && !self.assemblies@[j]@.complete() by {
                assert(self.assemblies@[j] == items[if j < i {
                    j
                } else {
                    j + 1
                }]);
            }
            assert forall|j: int| 0 <= j < self@.len() implies (#[trigger] self@[j]).wf()
                && !self@[j].complete() by {
                assert(self@[j] == self.assemblies@[j]@);
            }
        }
        limits.release(Lease { bytes: gone.lease.bytes });
        gone
    }

    /// Gives up the datagram that another route left under the key of a part.
    fn drop_stale(&mut self, limits: &mut Limits, piece: &Piece)
        requires
            old(self).wf(),
            leased(old(self)@) <= old(limits).used,
        ensures
            final(self).wf(),
            leased(final(self)@) <= final(limits).used,
            (final(self)@, *final(limits)) == without_stale(old(self)@, *old(limits), *piece),
    {
        if let Some(i) = self.find(&piece.key) {
            proof {
                lemma_leased_at(self@, i as int, self@[i as int]);
                assert forall|j: int| 0 <= j < self.assemblies@.len() implies (
                #[trigger] self.assemblies@[j])@ == self@[j] by {}
                assert forall|j: int| 0 <= j < self.assemblies@.len() implies (
                #[trigger] self.assemblies@[j]).wf() && !self.assemblies@[j]@.complete() by {
                    assert(!self@[j].complete());
                }
            }
            if self.assemblies[i].binding != piece.binding {
                let _gone = self.forget(limits, i);
            }
        }
    }

    /// Starts the datagram of a part, if the allowance has room for another one.
    fn start(&mut self, limits: &mut Limits, piece: &Piece) -> (r: bool)
        requires
            old(self).wf(),
            leased(old(self)@) <= old(limits).used,
            !holds(old(self)@, piece.key),
        ensures
            final(self).wf(),
            leased(final(self)@) <= final(limits).used,
            r == old(limits).admits(0, ASSEMBLY_BYTES as int),
            r ==> final(self)@ == old(self)@.push(fresh(*piece)) && *final(limits) == old(
                limits,
            ).after(0, ASSEMBLY_BYTES as int),
            !r ==> final(self)@ == old(self)@ && *final(limits) == *old(limits),
    {
        let lease = match limits.reserve(ASSEMBLY_BYTES) {
            Some(lease) => lease,
            None => {
                return false;
            },
        };
        let ghost rest = self@;
        let ghost items = self.assemblies@;
        self.assemblies.push(Assembly::new(piece, lease));
        proof {
            assert(self@ =~= rest.push(fresh(*piece)));
            lemma_leased_push(rest, fresh(*piece));
            assert(!fresh(*piece).complete());
            assert forall|j: int| 0 <= j < self.assemblies@.len() implies (
            #[trigger] self.assemblies@[j]).wf() by {
                if j < items.len() {
                    assert(self.assemblies@[j] == items[j]);
                }
            }
            assert forall|j: int| 0 <= j < self@.len() implies (#[trigger] self@[j]).wf()
                && !self@[j].complete() by {
                if j < rest.len() {
                    assert(self@[j] == rest[j]);
                }
            }
        }
        true
    }

    /// Offers a part to the datagram that it belongs to. Returns the datagram's
    /// bytes if the part completes it.
    fn offer(&mut self, limits: &mut Limits, index: usize, piece: &Piece, data: &[u8]) -> (r: Option<
        Vec<u8>,
    >)
        requires
            old(self).wf(),
            leased(old(self)@) <= old(limits).used,
            index < old(self).assemblies@.len(),
            old(self)@[index as int].key == piece.key,
            slot(old(self)@, piece.key) == index,
            piece.wf(data@),
        ensures
            final(self).wf(),
            leased(final(self)@) <= final(limits).used,
            ({
                let after = after_offer(old(self)@, *old(limits), *piece, data@);
                &&& final(self)@ == after.0
                &&& *final(limits) == after.1
                &&& r is Some == after.2 is Some
                &&& r matches Some(bytes) ==> after.2 == Some(bytes@) && bytes@.len() <= 65535
            }),
    {
        let ghost s = self@;
        let ghost items = self.assemblies@;
        proof {
            lemma_leased_at(s, index as int, s[index as int]);
            assert(items[index as int]@ == s[index as int]);
        }
        let complete = self.assemblies[index].accept(piece, data, limits);
        let ghost a = self.assemblies@[index as int]@;
        proof {
            lemma_leased_at(s, index as int, a);
            assert(self@ =~= s.update(index as int, a));
            assert(self.assemblies@ =~= items.update(index as int, self.assemblies@[index as int]));
            assert forall|j: int|
                0 <= j < self.assemblies@.len() && j != index implies (
            #[trigger] self.assemblies@[j]).wf() && !self.assemblies@[j]@.complete() by {
                assert(self.assemblies@[j] == items[j]);
                assert(s[j] == items[j]@);
            }
            assert(self@[index as int] == a);
            assert(a.key == piece.key);
        }
        if !complete {
            proof {
                assert forall|j: int| 0 <= j < self@.len() implies (#[trigger] self@[j]).wf()
                    && !self@[j].complete() by {
                    if j != index {
                        assert(self@[j] == s[j]);
                    }
                }
            }
            return None;
        }
        limits.complete(&self.assemblies[index].lease);
        let done = self.forget(limits, index);
        proof {
            assert(self@ =~= s.remove(index as int));
        }
        Some(done.data)
    }

    /// Takes a part in. Returns the bytes of its datagram if that is complete now.
    fn reassemble(&mut self, limits: &mut Limits, piece: &Piece, data: &[u8]) -> (r: Option<Vec<u8>>)
        requires
            old(self).wf(),
            leased(old(self)@) <= old(limits).used,
            piece.wf(data@),
        ensures
            final(self).wf(),
            leased(final(self)@) <= final(limits).used,
            ({
                let after = reassembled(old(self)@, *old(limits), *piece, data@);
                &&& final(self)@ == after.0
                &&& *final(limits) == after.1
                &&& r is Some == after.2 is Some
                &&& r matches Some(bytes) ==> after.2 == Some(bytes@) && bytes@.len() <= 65535
            }),
    {
        self.drop_stale(limits, piece);
        let index: usize = match self.find(&piece.key) {
            Some(i) => i,
            None => {
                let ghost rest = self@;
                if !self.start(limits, piece) {
                    return None;
                }
                proof {
                    assert(self@[rest.len() as int].key == piece.key);
                    assert(holds(self@, piece.key));
                }
                self.assemblies.len() - 1
            },
        };
        self.offer(limits, index, piece, data)
    }

    /// Reads one frame. A whole packet is returned as it is; a fragment is taken
    /// in, and returned only as the datagram that it completes. A datagram that
    /// starts with this fragment is kept for `REASSEMBLY_LIFETIME`.
    pub fn decode<'a>(&mut self, limits: &mut Limits, data: &'a [u8], now: u64) -> (r: Option<
        Packet<'a>,
    >)
        requires
            old(self).wf(),
            leased(old(self)@) <= old(limits).used,
            now + REASSEMBLY_LIFETIME <= u64::MAX,
        ensures
            final(self).wf(),
            leased(final(self)@) <= final(limits).used,
            (final(self)@, *final(limits), packet_view(r)) == decoded(
                old(self)@,
                *old(limits),
                spec_parse(data@),
                now,
                (now + REASSEMBLY_LIFETIME) as u64,
                None,
            ),
            r matches Some(packet) ==> packet.wf(),
    {
        parse(data)?.decode(self, limits, now)
    }

    /// Reads a frame that the router has bound to a datagram. Frames of a binding
    /// that is no longer active are dropped, so that they cannot reach a later
    /// datagram under the same key. The binding says when the datagram expires.
    pub fn decode_fragment<'a>(
        &mut self,
        limits: &mut Limits,
        data: &'a [u8],
        now: u64,
        binding: &Binding,
        active: bool,
    ) -> (r: Option<Packet<'a>>)
        requires
            old(self).wf(),
            leased(old(self)@) <= old(limits).used,
        ensures
            final(self).wf(),
            leased(final(self)@) <= final(limits).used,
            (final(self)@, *final(limits), packet_view(r)) == decoded(
                old(self)@,
                *old(limits),
                if active {
                    spec_parse(data@)
                } else {
                    None
                },
                now,
                binding.expires,
                Some(binding.number),
            ),
            r matches Some(packet) ==> packet.wf(),
    {
        if !active {
            return None;
        }
        let parsed = parse(data)?;
        self.decode_parsed(limits, parsed, now, binding.expires, Some(binding.number))
    }

    fn decode_parsed<'a>(
        &mut self,
        limits: &mut Limits,
        parsed: Parsed<'a>,
        now: u64,
        expires: u64,
        binding: Option<u64>,
    ) -> (r: Option<Packet<'a>>)
        requires
            old(self).wf(),
            leased(old(self)@) <= old(limits).used,
            parsed@.wf(),
        ensures
            final(self).wf(),
            leased(final(self)@) <= final(limits).used,
            (final(self)@, *final(limits), packet_view(r)) == decoded(
                old(self)@,
                *old(limits),
                Some(parsed@),
                now,
                expires,
                binding,
            ),
            r matches Some(packet) ==> packet.wf(),
    {
        let mut ip = parsed.ip;
        if let Some(fragment) = parsed.fragment {
            let piece = Piece {
                key: parsed.key(),
                protocol: ip.protocol,
                header_len: parsed.header_len,
                fragment,
                expires,
                binding,
            };
            proof {
                lemma_alive(self@, now);
            }
            self.expire(limits, now);
            let bytes = self.reassemble(limits, &piece, parsed.payload)?;
            ip.payload_len = bytes.len();
            return Some(Packet { ip, payload: Payload::Owned(bytes) });
        }
        ip.payload_len = parsed.payload.len();
        Some(Packet { ip, payload: Payload::Borrowed(parsed.payload) })
    }

    /// Whether parts of the datagram of this binding are still kept.
    pub fn retains(&self, binding: &Binding) -> (r: bool)
        requires
            self.wf(),
        ensures
            r == spec_retains(self@, *binding),
    {
        match self.find(&binding.key) {
            Some(i) => {
                assert(self.assemblies@[i as int]@ == self@[i as int]);
                match self.assemblies[i].binding {
                    Some(number) => number == binding.number,
                    None => false,
                }
            },
            None => false,
        }
    }
}

impl<'a> Parsed<'a> {
    /// `Decoder::decode` for a frame that has been validated already.
    pub fn decode(self, decoder: &mut Decoder, limits: &mut Limits, now: u64) -> (r: Option<
        Packet<'a>,
    >)
        requires
            self@.wf(),
            old(decoder).wf(),
            leased(old(decoder)@) <= old(limits).used,
            now + REASSEMBLY_LIFETIME <= u64::MAX,
        ensures
            final(decoder).wf(),
            leased(final(decoder)@) <= final(limits).used,
            (final(decoder)@, *final(limits), packet_view(r)) == decoded(
                old(decoder)@,
                *old(limits),
                Some(self@),
                now,
                (now + REASSEMBLY_LIFETIME) as u64,
                None,
            ),
            r matches Some(packet) ==> packet.wf(),
    {
        decoder.decode_parsed(limits, self, now, now + REASSEMBLY_LIFETIME, None)
    }
}

/// Whether a datagram of this binding is among the incomplete ones.
pub open spec fn spec_retains(s: Seq<AssemblyView>, binding: Binding) -> bool {
    exists|i: int|
        0 <= i < s.len() && (#[trigger] s[i]).key == binding.key && s[i].binding == Some(
            binding.number,
        )
}

/// The header and the payload of a packet.
pub open spec fn packet_view(packet: Option<Packet<'_>>) -> Option<(IpHeader, Seq<u8>)> {
    match packet {
        Some(packet) => Some((packet.ip, packet.payload@)),
        None => None,
    }
}

/// What a frame does to the incomplete datagrams and to the accounts, and the
/// packet that comes of it.
pub open spec fn decoded(
    s: Seq<AssemblyView>,
    limits: Limits,
    parsed: Option<ParsedView>,
    now: u64,
    expires: u64,
    binding: Option<u64>,
) -> (Seq<AssemblyView>, Limits, Option<(IpHeader, Seq<u8>)>) {
    match parsed {
        None => (s, limits, None),
        Some(p) => if p.fragment is None {
            (s, limits, Some((IpHeader { payload_len: p.payload.len() as usize, ..p.ip }, p.payload)))
        } else {
            let live = alive(s, now);
            let after = reassembled(
                live,
                limits.after(leased(s), leased(live)),
                piece_of(p, expires, binding),
                p.payload,
            );
            (
                after.0,
                after.1,
                match after.2 {
                    Some(bytes) => Some(
                        (IpHeader { payload_len: bytes.len() as usize, ..p.ip }, bytes),
                    ),
                    None => None,
                },
            )
        },
    }
}

/// A whole packet, an atomic fragment among them, meets no incomplete datagram:
/// it comes out as it is and changes nothing.
pub proof fn law_whole_packets_are_independent(
    s: Seq<AssemblyView>,
    limits: Limits,
    p: ParsedView,
    now: u64,
    expires: u64,
    binding: Option<u64>,
)
    requires
        p.wf(),
        p.fragment is None,
    ensures
        decoded(s, limits, Some(p), now, expires, binding) == (
            s,
            limits,
            Some((p.ip, p.payload)),
        ),
{
}

/// A datagram that was given up stays given up: no part changes it, completes it
/// or takes anything of the allowance.
pub proof fn law_poison_lasts(a: AssemblyView, piece: Piece, data: Seq<u8>, limits: Limits)
    ensures
        a.poison().offer(piece, data, limits) == a.poison(),
        a.poison().charged() == ASSEMBLY_BYTES,
        a.wf() ==> !a.poison().complete(),
{
    assert(!a.poison().covered.contains(0));
}

/// An IPv6 part that repeats a byte which has come, whatever it holds, gives the
/// datagram up.
pub proof fn law_overlap_poisons_ipv6(
    a: AssemblyView,
    piece: Piece,
    data: Seq<u8>,
    limits: Limits,
    p: int,
)
    requires
        piece.key.source is V6,
        !a.poisoned,
        a.covered.contains(p),
        piece.fragment.offset <= p < piece.fragment.offset + data.len(),
    ensures
        a.offer(piece, data, limits) == a.poison(),
{
}

/// No part, valid or not, moves the expiry of the datagram that it belongs to.
pub proof fn law_expiry_is_not_refreshed(
    a: AssemblyView,
    piece: Piece,
    data: Seq<u8>,
    limits: Limits,
)
    ensures
        a.offer(piece, data, limits).expires == a.expires,
        a.offer(piece, data, limits).key == a.key,
{
}

/// Only a datagram that completes teaches the allowance anything, and no traffic
/// changes the allowance itself.
pub proof fn law_only_completion_is_learned(
    s: Seq<AssemblyView>,
    limits: Limits,
    parsed: Option<ParsedView>,
    now: u64,
    expires: u64,
    binding: Option<u64>,
)
    ensures
        ({
            let after = decoded(s, limits, parsed, now, expires, binding);
            &&& after.1.target == limits.target
            &&& after.2 is None ==> after.1.completed == limits.completed
        }),
{
}

/// What the decoder holds of the allowance changes by exactly as much as the
/// accounts do.
pub proof fn law_accounts_balance(
    s: Seq<AssemblyView>,
    limits: Limits,
    parsed: Option<ParsedView>,
    now: u64,
    expires: u64,
    binding: Option<u64>,
)
    requires
        distinct(s),
        leased(s) <= limits.used,
    ensures
        ({
            let after = decoded(s, limits, parsed, now, expires, binding);
            after.1.used - leased(after.0) == limits.used - leased(s)
        }),
{
    if let Some(p) = parsed {
        if p.fragment is Some {
            let live = alive(s, now);
            let accounts = limits.after(leased(s), leased(live));
            let piece = piece_of(p, expires, binding);
            lemma_alive(s, now);
            lemma_leased_nonnegative(live);
            lemma_reassembled_balances(live, accounts, piece, p.payload);
        }
    }
}

proof fn lemma_offer_balances(
    s: Seq<AssemblyView>,
    limits: Limits,
    piece: Piece,
    data: Seq<u8>,
)
    requires
        holds(s, piece.key),
        leased(s) <= limits.used,
    ensures
        ({
            let after = after_offer(s, limits, piece, data);
            after.1.used - leased(after.0) == limits.used - leased(s)
        }),
{
    let i = slot(s, piece.key);
    let a = s[i].offer(piece, data, limits);
    lemma_leased_at(s, i, a);
}

proof fn lemma_reassembled_balances(
    s: Seq<AssemblyView>,
    limits: Limits,
    piece: Piece,
    data: Seq<u8>,
)
    requires
        leased(s) <= limits.used,
    ensures
        ({
            let after = reassembled(s, limits, piece, data);
            after.1.used - leased(after.0) == limits.used - leased(s)
        }),
{
    let (rest, accounts) = without_stale(s, limits, piece);
    if holds(s, piece.key) {
        lemma_leased_at(s, slot(s, piece.key), s[slot(s, piece.key)]);
    }
    lemma_leased_nonnegative(rest);
    if holds(rest, piece.key) {
        lemma_offer_balances(rest, accounts, piece, data);
    } else if accounts.admits(0, ASSEMBLY_BYTES as int) {
        let t = rest.push(fresh(piece));
        lemma_leased_push(rest, fresh(piece));
        assert(t[rest.len() as int].key == piece.key);
        assert(holds(t, piece.key));
        lemma_offer_balances(t, accounts.after(0, ASSEMBLY_BYTES as int), piece, data);
    }
}

/// A part leaves every other datagram as it is.
pub proof fn law_datagrams_stay_separate(
    s: Seq<AssemblyView>,
    limits: Limits,
    piece: Piece,
    data: Seq<u8>,
    other: AssemblyView,
)
    requires
        distinct(s),
        other.key != piece.key,
    ensures
        s.contains(other) <==> reassembled(s, limits, piece, data).0.contains(other),
{
    let (rest, accounts) = without_stale(s, limits, piece);
    let i = slot(s, piece.key);
    if holds(s, piece.key) && s[i].binding != piece.binding {
        lemma_remove_keeps(s, i, other);
    }
    if holds(rest, piece.key) {
        lemma_offer_keeps(rest, accounts, piece, data, other);
    } else if accounts.admits(0, ASSEMBLY_BYTES as int) {
        let t = rest.push(fresh(piece));
        assert(t[rest.len() as int].key == piece.key);
        assert(holds(t, piece.key));
        assert(rest.contains(other) ==> t.contains(other)) by {
            if rest.contains(other) {
                let j = choose|j: int| 0 <= j < rest.len() && rest[j] == other;
                assert(t[j] == other);
            }
        }
        assert(t.contains(other) ==> rest.contains(other)) by {
            if t.contains(other) {
                let j = choose|j: int| 0 <= j < t.len() && t[j] == other;
                assert(rest[j] == other);
            }
        }
        lemma_offer_keeps(t, accounts.after(0, ASSEMBLY_BYTES as int), piece, data, other);
    }
}

proof fn lemma_remove_keeps(s: Seq<AssemblyView>, i: int, other: AssemblyView)
    requires
        0 <= i < s.len(),
        s[i] != other,
    ensures
        s.contains(other) <==> s.remove(i).contains(other),
{
    let t = s.remove(i);
    if s.contains(other) {
        let j = choose|j: int| 0 <= j < s.len() && s[j] == other;
        assert(t[if j < i {
            j
        } else {
            j - 1
        }] == other);
    }
    if t.contains(other) {
        let j = choose|j: int| 0 <= j < t.len() && t[j] == other;
        assert(s[if j < i {
            j
        } else {
            j + 1
        }] == other);
    }
}

proof fn lemma_offer_keeps(
    s: Seq<AssemblyView>,
    limits: Limits,
    piece: Piece,
    data: Seq<u8>,
    other: AssemblyView,
)
    requires
        holds(s, piece.key),
        other.key != piece.key,
    ensures
        s.contains(other) <==> after_offer(s, limits, piece, data).0.contains(other),
{
    let i = slot(s, piece.key);
    let a = s[i].offer(piece, data, limits);
    law_expiry_is_not_refreshed(s[i], piece, data, limits);
    lemma_remove_keeps(s, i, other);
    let t = s.update(i, a);
    if s.contains(other) {
        let j = choose|j: int| 0 <= j < s.len() && s[j] == other;
        assert(t[j] == other);
    }
    if t.contains(other) {
        let j = choose|j: int| 0 <= j < t.len() && t[j] == other;
        assert(s[j] == other);
    }
}

/// The first part of an IPv6 datagram lacks some of its transport header: TCP needs the
/// length that its header gives, UDP and ICMPv6 need eight bytes.
pub open spec fn header_cut_short(protocol: u8, data: Seq<u8>) -> bool {
    ||| protocol == 6 && (data.len() < 20 || data[12] / 16 < 5 || 4 * (data[12] / 16) > data.len())
    ||| (protocol == 17 || protocol == 58) && data.len() < 8
}

/// Each of these faults of a part gives an IPv6 datagram up: it is empty, ends beyond the
/// largest payload, is of another protocol or behind other headers than the parts before
/// it, is no multiple of eight although more follows, starts the datagram without its
/// whole transport header, or contradicts where the datagram ends.
pub proof fn law_faults_give_an_ipv6_datagram_up(
    a: AssemblyView,
    piece: Piece,
    data: Seq<u8>,
    limits: Limits,
)
    requires
        piece.key.source is V6,
        !a.poisoned,
        ({
            let end = piece.fragment.offset + data.len();
            ||| data.len() == 0
            ||| end + piece.fragment.prefix_len > 65535
            ||| piece.protocol != a.protocol
            ||| piece.fragment.prefix_len != a.prefix_len
            ||| piece.fragment.more && data.len() % 8 != 0
            ||| piece.fragment.offset == 0 && header_cut_short(piece.protocol, data)
            ||| a.total matches Some(total) && end > total
            ||| a.total matches Some(total) && !piece.fragment.more && end != total
            ||| !piece.fragment.more && a.data.len() > end
        }),
    ensures
        a.offer(piece, data, limits) == a.poison(),
        a.offer(piece, data, limits).poisoned,
        a.offer(piece, data, limits).data.len() == 0,
{
}

/// A part without fault is kept, as far as the allowance and the number of gaps permit:
/// its bytes stand at their places, all others stay, and the last part tells where the
/// datagram ends. In IPv4 a later part takes the place of what an earlier one put there.
pub proof fn law_sound_parts_are_kept(
    a: AssemblyView,
    piece: Piece,
    data: Seq<u8>,
    limits: Limits,
    p: int,
)
    requires
        !a.poisoned,
        a.wf(),
        piece.wf(data),
        ({
            let end = piece.fragment.offset + data.len();
            let longest = if a.data.len() > end {
                a.data.len() as int
            } else {
                end as int
            };
            &&& a.total matches Some(total) ==> end <= total && (piece.fragment.more || end
                == total)
            &&& piece.fragment.more || a.data.len() <= end
            &&& if piece.key.source is V6 {
                &&& data.len() > 0
                &&& end + piece.fragment.prefix_len <= 65535
                &&& piece.protocol == a.protocol
                &&& piece.fragment.prefix_len == a.prefix_len
                &&& piece.fragment.more ==> data.len() % 8 == 0
                &&& piece.fragment.offset == 0 ==> !header_cut_short(piece.protocol, data) && (
                piece.protocol == 6 || piece.protocol == 17 || piece.protocol == 58)
                &&& forall|q: int| piece.fragment.offset <= q < end ==> !a.covered.contains(q)
            } else {
                let header = if piece.fragment.offset == 0 {
                    piece.header_len as int
                } else {
                    a.header_len
                };
                (a.total is Some || !piece.fragment.more) ==> header + (if piece.fragment.more {
                    a.total->0
                } else {
                    end as int
                }) <= 65535
            }
            &&& limits.used + (longest - a.data.len()) <= limits.target
            &&& limits.used + (longest - a.data.len()) <= usize::MAX
            &&& recordable(a.covered, piece.fragment.offset as int, end as int)
        }),
    ensures
        ({
            let r = a.offer(piece, data, limits);
            let end = piece.fragment.offset + data.len();
            &&& !r.poisoned
            &&& r.covered.contains(p) <==> a.covered.contains(p) || piece.fragment.offset <= p
                < end
            &&& piece.fragment.offset <= p < end ==> r.data[p] == data[p - piece.fragment.offset]
            &&& 0 <= p < a.data.len() && !(piece.fragment.offset <= p < end) ==> r.data[p]
                == a.data[p]
            &&& r.total == if piece.fragment.more {
                a.total
            } else {
                Some(end as int)
            }
            &&& piece.fragment.offset == 0 ==> r.header_len == piece.header_len
            &&& piece.fragment.offset != 0 ==> r.header_len == a.header_len
            &&& r.expires == a.expires && r.key == a.key && r.protocol == a.protocol
        }),
{
    let end = piece.fragment.offset + data.len();
    let after = a.write(piece, data);
    assert(after.charged() - a.charged() == after.data.len() - a.data.len());
    assert(piece.key.source is V6 ==> !overlaps(a.covered, piece.fragment.offset as int, end as int));
}

/// An IPv4 part that contradicts where the datagram ends, or makes it longer than a length
/// field can say, is left out; the datagram stays as it was.
pub proof fn law_misfits_of_ipv4_are_left_out(
    a: AssemblyView,
    piece: Piece,
    data: Seq<u8>,
    limits: Limits,
)
    requires
        piece.key.source is V4,
        ({
            let end = piece.fragment.offset + data.len();
            ||| a.total matches Some(total) && end > total
            ||| a.total matches Some(total) && !piece.fragment.more && end != total
            ||| !piece.fragment.more && a.data.len() > end
            ||| !piece.fragment.more && a.header_len + end > 65535 && piece.fragment.offset != 0
            ||| !piece.fragment.more && piece.header_len + end > 65535 && piece.fragment.offset == 0
        }),
    ensures
        a.offer(piece, data, limits) == a,
{
}

/// A part never makes a datagram hold more than the allowance leaves, and one for which
/// there is no room changes nothing, unless it gives the datagram up. A datagram counts
/// for its bytes and two hundred and fifty-six more.
pub proof fn law_parts_stay_within_the_allowance(
    a: AssemblyView,
    piece: Piece,
    data: Seq<u8>,
    limits: Limits,
)
    requires
        a.charged() <= limits.used,
    ensures
        ({
            let r = a.offer(piece, data, limits);
            &&& a.charged() == 256 + a.data.len()
            &&& r.charged() > a.charged() ==> limits.used - a.charged() + r.charged()
                <= limits.target
            &&& r == a || r == a.poison() || r == a.write(piece, data)
        }),
{
}

/// A datagram is complete exactly when its end is known and every byte up to it, and none
/// at it, has come.
pub proof fn law_complete_means_every_byte_came(a: AssemblyView)
    ensures
        a.complete() ==> a.total is Some && (forall|p: int|
            0 <= p < a.total->0 ==> a.covered.contains(p)),
        a.total is Some && a.wf() && (forall|p: int|
            0 <= p < a.total->0 ==> a.covered.contains(p)) ==> a.complete() && a.data.len()
            == a.total->0,
{
    if a.total is Some && a.wf() && (forall|p: int|
        0 <= p < a.total->0 ==> a.covered.contains(p)) {
        assert(a.covered.contains(a.total->0 - 1));
        assert(span(0, a.data.len() as int).contains(a.total->0 - 1));
        if a.covered.contains(a.total->0) {
            assert(span(0, a.data.len() as int).contains(a.total->0));
        }
    }
}

/// A datagram that starts is given up sixty seconds later; until then it is kept in mind,
/// and from then on it is not.
pub proof fn law_incomplete_datagrams_expire(s: Seq<AssemblyView>, now: u64, a: AssemblyView)
    requires
        distinct(s),
    ensures
        alive(s, now).contains(a) <==> s.contains(a) && now < a.expires,
        REASSEMBLY_LIFETIME == 60 * 1000,
{
    lemma_alive(s, now);
    if alive(s, now).contains(a) {
        let i = choose|i: int| 0 <= i < alive(s, now).len() && alive(s, now)[i] == a;
        assert(s.contains(alive(s, now)[i]));
    }
    if s.contains(a) && now < a.expires {
        let i = choose|i: int| 0 <= i < s.len() && s[i] == a;
        assert(alive(s, now).contains(s[i]));
    }
}

/// A datagram of which nothing was kept is not started where the allowance has no room
/// for it, and nothing else changes.
pub proof fn law_datagrams_start_with_room(
    s: Seq<AssemblyView>,
    limits: Limits,
    piece: Piece,
    data: Seq<u8>,
)
    requires
        !holds(s, piece.key),
        limits.used + 256 > limits.target,
    ensures
        reassembled(s, limits, piece, data) == (s, limits, None::<Seq<u8>>),
{
}

/// A part that another route led here has nothing to do with what an earlier route left
/// under the same key: that is given up, with its share, before the part is looked at.
pub proof fn law_other_routes_start_afresh(
    s: Seq<AssemblyView>,
    limits: Limits,
    piece: Piece,
    data: Seq<u8>,
    i: int,
)
    requires
        distinct(s),
        0 <= i < s.len(),
        s[i].key == piece.key,
        s[i].binding != piece.binding,
    ensures
        !holds(s.remove(i), piece.key),
        reassembled(s, limits, piece, data) == reassembled(
            s.remove(i),
            limits.after(s[i].charged(), 0),
            piece,
            data,
        ),
{
    let j = slot(s, piece.key);
    assert(s[i].key == piece.key);
    assert(holds(s, piece.key));
    assert(j == i) by {
        if j < i {
            assert(s[j].key != s[i].key);
        } else if i < j {
            assert(s[i].key != s[j].key);
        }
    }
    let rest = s.remove(i);
    assert(!holds(rest, piece.key)) by {
        if holds(rest, piece.key) {
            let k = choose|k: int| 0 <= k < rest.len() && #[trigger] rest[k].key == piece.key;
            let m = if k < i {
                k
            } else {
                k + 1
            };
            assert(rest[k] == s[m]);
            if m < i {
                assert(s[m].key != s[i].key);
            } else {
                assert(s[i].key != s[m].key);
            }
        }
    }
}

/// What is no valid packet leaves the decoder as it was, and yields nothing; and a fragment
/// yields at most a packet between its own ends, of its own protocol.
pub proof fn law_packets_keep_their_ends(
    s: Seq<AssemblyView>,
    limits: Limits,
    parsed: Option<ParsedView>,
    now: u64,
    expires: u64,
    binding: Option<u64>,
)
    ensures
        ({
            let after = decoded(s, limits, parsed, now, expires, binding);
            &&& parsed is None ==> after == (s, limits, None::<(IpHeader, Seq<u8>)>)
            &&& after.2 matches Some((ip, _)) ==> parsed is Some && ip.source == (
            parsed->0).ip.source && ip.destination == (parsed->0).ip.destination && ip.protocol == (
            parsed->0).ip.protocol && ip.hop_limit == (parsed->0).ip.hop_limit
        }),
{
}

/// A decoder keeps a datagram of a binding in mind exactly when the one under its key came
/// by that very binding: not one of an earlier or a later number, and none that came by no
/// route.
pub proof fn law_datagrams_belong_to_their_binding(
    s: Seq<AssemblyView>,
    binding: Binding,
    i: int,
)
    requires
        distinct(s),
    ensures
        0 <= i < s.len() && s[i].key == binding.key ==> (spec_retains(s, binding)
            <==> s[i].binding == Some(binding.number)),
        !holds(s, binding.key) ==> !spec_retains(s, binding),
{
    if 0 <= i < s.len() && s[i].key == binding.key && spec_retains(s, binding) {
        let j = choose|j: int|
            0 <= j < s.len() && (#[trigger] s[j]).key == binding.key && s[j].binding == Some(
                binding.number,
            );
        if j < i {
            assert(s[j].key != s[i].key);
        } else if i < j {
            assert(s[i].key != s[j].key);
        }
    }
}

} // verus!
