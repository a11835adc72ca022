//! UDP datagrams as IP frames, fragmented where the link cannot carry them whole.
use crate::checksum;
use crate::checksum::{
    be16, complement, fold, lemma_address_sum, lemma_fold_sum, lemma_total_3, lemma_word_sum_bounds,
    pseudo_sum, word_sum,
};
use crate::packet::{spec_unicast, unicast, Flow};
use crate::shared::contents;
use crate::storage::PacketArena;
use crate::wire::{
    emit_ip, emit_ipv4, emit_ipv6, emit_ipv6_fragment, emit_udp, is_ip_header, is_ipv4_header,
    is_ipv6_fragment, is_ipv6_header, mark_ipv4_fragment, IpAddress, IpHeader, SocketAddress,
    HOP_LIMIT, IPV6_FRAGMENT, UDP,
};
use bytes::Bytes;
use std::sync::atomic::{AtomicU16, AtomicU32};
use std::sync::Arc;
use vstd::prelude::*;
use vstd::slice::slice_subrange;

verus! {

/// The two bytes of a word in network order.
pub open spec fn be_bytes(x: int) -> Seq<u8> {
    seq![(x / 256) as u8, (x % 256) as u8]
}

/// The checksum of a datagram; a computed zero is sent as all ones.
pub open spec fn udp_checksum(
    source: SocketAddress,
    destination: SocketAddress,
    payload: Seq<u8>,
) -> int {
    let len = 8 + payload.len();
    let sum = complement(
        pseudo_sum(source.ip, destination.ip, UDP as int, len as int) + source.port
            + destination.port + len + word_sum(payload),
    );
    if sum == 0 {
        65535
    } else {
        sum
    }
}

/// The header of a datagram: ports, length and checksum.
pub open spec fn udp_header(
    source: SocketAddress,
    destination: SocketAddress,
    payload: Seq<u8>,
) -> Seq<u8> {
    be_bytes(source.port as int) + be_bytes(destination.port as int) + be_bytes(
        8 + payload.len() as int,
    )
        + be_bytes(udp_checksum(source, destination, payload))
}

/// A datagram as it stands on the wire after its IP headers.
pub open spec fn udp_bytes(
    source: SocketAddress,
    destination: SocketAddress,
    payload: Seq<u8>,
) -> Seq<u8> {
    udp_header(source, destination, payload) + payload
}

/// What the IP header of a datagram of this length says.
pub open spec fn udp_ip(source: SocketAddress, destination: SocketAddress, len: int) -> IpHeader {
    IpHeader {
        source: source.ip,
        destination: destination.ip,
        protocol: UDP,
        payload_len: len as usize,
        hop_limit: HOP_LIMIT,
    }
}

pub open spec fn ip_header_len(address: SocketAddress) -> int {
    if address.ip is V4 {
        20
    } else {
        40
    }
}

/// The largest payload of a datagram in the family of its source.
pub open spec fn max_datagram(source: SocketAddress) -> int {
    if source.ip is V4 {
        65507
    } else {
        65527
    }
}

/// A datagram that has a form on the wire: one family, a source port, and a
/// length that fits.
pub open spec fn encodable(source: SocketAddress, destination: SocketAddress, len: int) -> bool {
    &&& source.ip is V4 == destination.ip is V4
    &&& source.port != 0
    &&& len <= max_datagram(source)
}

/// A frame that carries the whole datagram.
pub open spec fn is_whole_frame(
    frame: Seq<u8>,
    source: SocketAddress,
    destination: SocketAddress,
    datagram: Seq<u8>,
) -> bool {
    &&& frame.len() == ip_header_len(source) + datagram.len()
    &&& is_ip_header(
        frame.take(ip_header_len(source)),
        udp_ip(source, destination, datagram.len() as int),
    )
    &&& frame.skip(ip_header_len(source)) == datagram
}

/// The length of the headers before a fragment's part of the datagram.
pub open spec fn fragment_header_len(source: SocketAddress) -> int {
    if source.ip is V4 {
        20
    } else {
        48
    }
}

/// The headers of a fragment that carries `len` bytes from `offset` on.
pub open spec fn is_fragment_header(
    s: Seq<u8>,
    source: IpAddress,
    destination: IpAddress,
    id: u32,
    offset: int,
    more: bool,
    len: int,
) -> bool {
    match (source, destination) {
        (IpAddress::V4(from), IpAddress::V4(to)) => is_ipv4_header(
            s,
            from,
            to,
            UDP,
            len,
            HOP_LIMIT,
            id as int % 0x1_0000,
            (if more {
                0x2000int
            } else {
                0
            }) + offset / 8,
        ),
        (IpAddress::V6(from), IpAddress::V6(to)) => {
            &&& s.len() == 48
            &&& is_ipv6_header(s.take(40), from, to, IPV6_FRAGMENT, 8 + len, HOP_LIMIT)
            &&& s[40] == UDP
            &&& s[41] == 0
            &&& is_ipv6_fragment(s.subrange(42, 48), offset / 8, more, id as int)
        },
        _ => false,
    }
}

/// A frame that carries the part of a datagram that starts at `offset`.
pub open spec fn is_fragment_frame(
    frame: Seq<u8>,
    source: SocketAddress,
    destination: SocketAddress,
    id: u32,
    offset: int,
    more: bool,
    part: Seq<u8>,
) -> bool {
    let at = fragment_header_len(source);
    &&& frame.len() == at + part.len()
    &&& is_fragment_header(
        frame.take(at),
        source.ip,
        destination.ip,
        id,
        offset,
        more,
        part.len() as int,
    )
    &&& frame.skip(at) == part
}

/// The bytes of a datagram that one fragment carries: a multiple of eight that
/// fits the link after the headers.
pub open spec fn fragment_size(source: SocketAddress, mtu: int) -> int {
    (mtu - fragment_header_len(source)) / 8 * 8
}

/// How many parts of `size` bytes cover `len` bytes.
pub open spec fn part_count(len: int, size: int) -> int {
    (len + size - 1) / size
}

/// Where part `index` ends.
pub open spec fn part_end(len: int, size: int, index: int) -> int {
    if (index + 1) * size <= len {
        (index + 1) * size
    } else {
        len
    }
}

/// Part `index` of a datagram that is cut every `size` bytes.
pub open spec fn part(datagram: Seq<u8>, size: int, index: int) -> Seq<u8> {
    datagram.subrange(index * size, part_end(datagram.len() as int, size, index))
}

/// The frames of one datagram: one frame where it fits the link, and otherwise
/// its parts in order under one identification.
pub open spec fn is_framed(
    frames: Seq<Bytes>,
    mtu: int,
    source: SocketAddress,
    destination: SocketAddress,
    datagram: Seq<u8>,
    id: u32,
) -> bool {
    if ip_header_len(source) + datagram.len() <= mtu {
        frames.len() == 1 && is_whole_frame(contents(frames[0]), source, destination, datagram)
    } else {
        let size = fragment_size(source, mtu);
        &&& frames.len() == part_count(datagram.len() as int, size)
        &&& forall|i: int|
            0 <= i < frames.len() ==> is_fragment_frame(
                contents(#[trigger] frames[i]),
                source,
                destination,
                id,
                i * size,
                i + 1 < frames.len(),
                part(datagram, size, i),
            )
    }
}

/// `part_count` is the least number of parts that cover everything.
pub proof fn lemma_part_count(len: int, size: int)
    requires
        len > 0,
        size > 0,
    ensures
        part_count(len, size) >= 1,
        (part_count(len, size) - 1) * size < len <= part_count(len, size) * size,
{
    let n = len + size - 1;
    vstd::arithmetic::div_mod::lemma_fundamental_div_mod(n, size);
    let q = n / size;
    assert(n == q * size + n % size) by (nonlinear_arith)
        requires
            n == size * q + n % size,
    ;
    assert(0 <= n % size < size) by {
        vstd::arithmetic::div_mod::lemma_mod_bound(n, size);
    }
    assert((q - 1) * size == q * size - size) by (nonlinear_arith);
    assert(q >= 1) by (nonlinear_arith)
        requires
            q * size >= 1,
            size > 0,
    ;
}

/// Identifications of fragmented datagrams. All writers of an endpoint draw from
/// one pair of counters.
pub struct Identifiers {
    ipv4: AtomicU16,
    ipv6: AtomicU32,
}

impl Identifiers {
    /// Draws the next identification of an IPv4 datagram. The counter starts at a
    /// random number and is advanced by all writers at once, so it may be any.
    fn next_ipv4(&self) -> u16 {
        self.ipv4.fetch_add(1, std::sync::atomic::Ordering::Relaxed)
    }

    /// Draws the next identification of an IPv6 datagram, which may be any as well.
    fn next_ipv6(&self) -> u32 {
        self.ipv6.fetch_add(1, std::sync::atomic::Ordering::Relaxed)
    }
}

/// Whether a datagram has a form on the wire.
fn has_form(source: SocketAddress, destination: SocketAddress, len: usize) -> (r: bool)
    ensures
        r == encodable(source, destination, len as int),
{
    let limit: usize = if source.is_ipv4() {
        65507
    } else {
        65527
    };
    source.is_ipv4() == destination.is_ipv4() && source.port != 0 && len <= limit
}

/// `rand::random`: any 16-bit number.
#[verifier::external_body]
fn random_u16() -> u16 {
    rand::random()
}

/// `rand::random`: any 32-bit number.
#[verifier::external_body]
pub(crate) fn random_u32() -> u32 {
    rand::random()
}

/// Frames the datagrams of one writer. Each writer packs its own packets; only
/// the identifications of fragments cross writers.
pub struct Encoder {
    mtu: usize,
    identifiers: Arc<Identifiers>,
    arena: PacketArena,
}

impl Clone for Encoder {
    fn clone(&self) -> (r: Encoder)
        ensures
            self.wf() ==> r.wf() && r.spec_mtu() == self.spec_mtu(),
    {
        Encoder {
            mtu: self.mtu,
            identifiers: self.identifiers.clone(),
            arena: PacketArena::new(),
        }
    }
}

impl Encoder {
    /// The link carries every datagram that IPv6 hosts must accept, and no frame
    /// that its length field cannot describe.
    pub closed spec fn wf(self) -> bool {
        1280 <= self.mtu <= 65535 && self.arena.wf()
    }

    pub closed spec fn spec_mtu(self) -> int {
        self.mtu as int
    }

    /// What the device can take in one frame of the link fits a datagram.
    pub proof fn lemma_offload_bound(
        self,
        source: SocketAddress,
        destination: SocketAddress,
        size: int,
    )
        requires
            self.wf(),
            self.offloadable(source, destination, size),
        ensures
            size <= max_datagram(source),
    {
    }

    /// A writer for a link that carries frames of up to `mtu` bytes.
    pub fn new(mtu: usize) -> (r: Encoder)
        requires
            1280 <= mtu <= 65535,
        ensures
            r.wf(),
            r.spec_mtu() == mtu,
    {
        Encoder {
            mtu,
            identifiers: Arc::new(
                Identifiers {
                    ipv4: AtomicU16::new(random_u16()),
                    ipv6: AtomicU32::new(random_u32()),
                },
            ),
            arena: PacketArena::new(),
        }
    }

    /// Whether datagrams of this size can leave the segmentation to the device:
    /// each of them has to fit the link by itself.
    pub open spec fn offloadable(
        self,
        source: SocketAddress,
        destination: SocketAddress,
        size: int,
    ) -> bool {
        &&& source.ip is V4 == destination.ip is V4
        &&& source.port != 0
        &&& size + ip_header_len(source) + 8 <= self.spec_mtu()
    }

    pub fn can_offload(
        &self,
        source: SocketAddress,
        destination: SocketAddress,
        size: usize,
    ) -> (r: bool)
        requires
            self.wf(),
        ensures
            r == self.offloadable(source, destination, size as int),
            r ==> size <= max_datagram(source),
    {
        let headers: usize = if source.is_ipv4() {
            28
        } else {
            48
        };
        source.is_ipv4() == destination.is_ipv4() && source.port != 0 && size <= self.mtu - headers
    }

    /// The header of a UDP aggregate whose checksum the device completes: the
    /// checksum field holds the folded pseudo-header. Datagrams of the aggregate
    /// have to fit the link; fragmentation is the business of `encode`.
    pub fn header(
        &mut self,
        source: SocketAddress,
        destination: SocketAddress,
        size: usize,
        total: usize,
    ) -> (r: Option<Bytes>)
        requires
            old(self).wf(),
        ensures
            final(self).wf(),
            final(self).spec_mtu() == old(self).spec_mtu(),
            r is Some == (old(self).offloadable(source, destination, size as int) && total
                <= max_datagram(source)),
            r matches Some(header) ==> {
                let at = ip_header_len(source);
                &&& contents(header).len() == at + 8
                &&& is_ip_header(
                    contents(header).take(at),
                    udp_ip(source, destination, 8 + total),
                )
                &&& contents(header).skip(at) == be_bytes(source.port as int) + be_bytes(
                    destination.port as int,
                ) + be_bytes(8 + total) + be_bytes(
                    fold(pseudo_sum(source.ip, destination.ip, UDP as int, 8 + total)),
                )
            },
    {
        let limit: usize = if source.is_ipv4() {
            65507
        } else {
            65527
        };
        if !self.can_offload(source, destination, size) || total > limit {
            return None;
        }
        let length: usize = 8 + total;
        let ip = IpHeader {
            source: source.ip,
            destination: destination.ip,
            protocol: UDP,
            payload_len: length,
            hop_limit: HOP_LIMIT,
        };
        let mut bytes = emit_ip(&ip);
        let ghost first = bytes@;
        let pseudo: u16 = checksum::pseudo_header(source.ip, destination.ip, UDP, length as u16);
        let mut udp = emit_udp(source.port, destination.port, length as u16, pseudo);
        let ghost second = udp@;
        bytes.append(&mut udp);
        proof {
            lemma_be_bytes(
                second,
                source.port as int,
                destination.port as int,
                length as int,
                pseudo as int,
            );
            assert(bytes@.take(first.len() as int) =~= first);
            assert(bytes@.skip(first.len() as int) =~= second);
        }
        Some(self.arena.encode(bytes))
    }

    /// The frames of a datagram under a fresh identification. A datagram that
    /// mixes families, has no source port or is too long has none. Only one that has
    /// to be cut draws an identification.
    pub fn encode(
        &mut self,
        source: SocketAddress,
        destination: SocketAddress,
        payload: &[u8],
    ) -> (r: Option<Vec<Bytes>>)
        requires
            old(self).wf(),
        ensures
            final(self).wf(),
            final(self).spec_mtu() == old(self).spec_mtu(),
            r is Some == encodable(source, destination, payload@.len() as int),
            r matches Some(frames) ==> exists|id: u32|
                is_framed(
                    frames@,
                    old(self).spec_mtu(),
                    source,
                    destination,
                    udp_bytes(source, destination, payload@),
                    id,
                ),
    {
        if !has_form(source, destination, payload.len()) {
            return None;
        }
        let headers: usize = if source.is_ipv4() {
            28
        } else {
            48
        };
        let id: u32 = if payload.len() <= self.mtu - headers {
            0
        } else if source.is_ipv4() {
            self.identifiers.next_ipv4() as u32
        } else {
            self.identifiers.next_ipv6()
        };
        self.encode_as(source, destination, payload, id)
    }

    /// The frames of a datagram under a given identification, of which IPv4 uses
    /// the low half.
    pub fn encode_as(
        &mut self,
        source: SocketAddress,
        destination: SocketAddress,
        payload: &[u8],
        id: u32,
    ) -> (r: Option<Vec<Bytes>>)
        requires
            old(self).wf(),
        ensures
            final(self).wf(),
            final(self).spec_mtu() == old(self).spec_mtu(),
            r is Some == encodable(source, destination, payload@.len() as int),
            r matches Some(frames) ==> is_framed(
                frames@,
                old(self).spec_mtu(),
                source,
                destination,
                udp_bytes(source, destination, payload@),
                id,
            ),
    {
        if !has_form(source, destination, payload.len()) {
            return None;
        }
        let length: usize = 8 + payload.len();
        let header = transport_header(source, destination, payload);
        let ip = IpHeader {
            source: source.ip,
            destination: destination.ip,
            protocol: UDP,
            payload_len: length,
            hop_limit: HOP_LIMIT,
        };
        let ghost datagram = udp_bytes(source, destination, payload@);
        assert(datagram.len() == length);
        let mut frames: Vec<Bytes> = Vec::new();
        if ip.header_len() + length <= self.mtu {
            let mut bytes = emit_ip(&ip);
            let ghost first = bytes@;
            copy_fragment(&header, payload, 0, length, &mut bytes);
            proof {
                assert(datagram.subrange(0, length as int) =~= datagram);
                assert(bytes@.take(first.len() as int) =~= first);
                assert(bytes@.skip(first.len() as int) =~= datagram);
            }
            frames.push(self.arena.encode(bytes));
            return Some(frames);
        }
        // All fragment offsets are multiples of eight, so only the first fragment
        // holds the UDP header.
        let headers: usize = if source.is_ipv4() {
            20
        } else {
            48
        };
        let size: usize = (self.mtu - headers) / 8 * 8;
        proof {
            lemma_part_count(length as int, size as int);
        }
        let count: usize = (length + size - 1) / size;
        let mut index: usize = 0;
        let mut offset: usize = 0;
        while index < count
            invariant
                index <= count,
                offset == index * size,
                1200 <= size <= 65535,
                size % 8 == 0,
                size == fragment_size(source, self.spec_mtu()),
                length == 8 + payload@.len(),
                length <= 65535,
                source.ip is V4 ==> length <= 65515,
                datagram == udp_bytes(source, destination, payload@),
                header@ == udp_header(source, destination, payload@),
                datagram.len() == length,
                count == part_count(length as int, size as int),
                (count - 1) * size < length <= count * size,
                source.ip is V4 == destination.ip is V4,
                self.wf(),
                self.spec_mtu() == old(self).spec_mtu(),
                frames@.len() == index,
                forall|i: int|
                    0 <= i < index ==> is_fragment_frame(
                        contents(#[trigger] frames@[i]),
                        source,
                        destination,
                        id,
                        i * size,
                        i + 1 < count,
                        part(datagram, size as int, i),
                    ),
            decreases count - index,
        {
            proof {
                assert((index + 1) * size == index * size + size) by (nonlinear_arith);
                assert(index * size <= (count - 1) * size) by (nonlinear_arith)
                    requires
                        index <= count - 1,
                ;
                if index + 1 < count {
                    assert((index + 1) * size <= (count - 1) * size) by (nonlinear_arith)
                        requires
                            index + 1 <= count - 1,
                    ;
                }
                assert((index * size) % 8 == 0) by {
                    let k = size as int / 8;
                    assert(index * size == 8 * (index * k)) by (nonlinear_arith)
                        requires
                            size == 8 * k,
                    ;
                }
            }
            let len: usize = if length - offset < size {
                length - offset
            } else {
                size
            };
            let more: bool = index + 1 < count;
            let mut bytes = fragment_header(source.ip, destination.ip, len, offset, more, id);
            let ghost first = bytes@;
            copy_fragment(&header, payload, offset, len, &mut bytes);
            proof {
                assert(bytes@ =~= first + part(datagram, size as int, index as int));
                assert(bytes@.skip(first.len() as int) =~= part(
                    datagram,
                    size as int,
                    index as int,
                ));
                assert(bytes@.take(first.len() as int) =~= first);
            }
            frames.push(self.arena.encode(bytes));
            offset = offset + size;
            index = index + 1;
        }
        Some(frames)
    }
}

/// Four fields of two bytes each are determined by their values.
proof fn lemma_be_bytes(s: Seq<u8>, a: int, b: int, c: int, d: int)
    requires
        s.len() == 8,
        be16(s, 0) == a,
        be16(s, 2) == b,
        be16(s, 4) == c,
        be16(s, 6) == d,
    ensures
        s == be_bytes(a) + be_bytes(b) + be_bytes(c) + be_bytes(d),
{
    assert(s =~= be_bytes(a) + be_bytes(b) + be_bytes(c) + be_bytes(d));
}

/// The UDP header of a datagram. Header and payload are summed apart, so that
/// the payload is copied once, into its frames.
fn transport_header(
    source: SocketAddress,
    destination: SocketAddress,
    payload: &[u8],
) -> (r: Vec<u8>)
    requires
        source.ip is V4 == destination.ip is V4,
        payload@.len() <= 65527,
    ensures
        r@ == udp_header(source, destination, payload@),
        r@.len() == 8,
{
    let length: usize = 8 + payload.len();
    let blank = emit_udp(source.port, destination.port, length as u16, 0);
    let pseudo: u16 = checksum::pseudo_header(source.ip, destination.ip, UDP, length as u16);
    let sums = [pseudo, checksum::data(blank.as_slice()), checksum::data(payload)];
    let all: u16 = checksum::combine(&sums);
    let sum: u16 = 0xffff - all;
    let field: u16 = if sum == 0 {
        0xffff
    } else {
        sum
    };
    let header = emit_udp(source.port, destination.port, length as u16, field);
    proof {
        let a = pseudo_sum(source.ip, destination.ip, UDP as int, length as int);
        let b = word_sum(blank@);
        let c = word_sum(payload@);
        lemma_address_sum(source.ip);
        lemma_address_sum(destination.ip);
        lemma_word_sum_bounds(blank@);
        lemma_word_sum_bounds(payload@);
        lemma_total_3(sums@);
        lemma_fold_sum(a, b);
        lemma_fold_sum(fold(a), b);
        lemma_fold_sum(a + b, c);
        lemma_fold_sum(fold(a) + fold(b), c);
        lemma_fold_sum(fold(a) + fold(b), fold(c));
        assert(b == source.port + destination.port + length) by {
            reveal_with_fuel(word_sum, 5);
        }
        assert(all == fold(a + b + c));
        lemma_be_bytes(
            header@,
            source.port as int,
            destination.port as int,
            length as int,
            field as int,
        );
    }
    header
}

/// The headers before a fragment's part of the datagram.
fn fragment_header(
    source: IpAddress,
    destination: IpAddress,
    len: usize,
    offset: usize,
    more: bool,
    id: u32,
) -> (r: Vec<u8>)
    requires
        source is V4 == destination is V4,
        offset % 8 == 0,
        offset + len <= 65535,
        source is V4 ==> offset + len <= 65515,
        source is V6 ==> len <= 65527,
    ensures
        is_fragment_header(r@, source, destination, id, offset as int, more, len as int),
        r@.len() == if source is V4 {
            20int
        } else {
            48
        },
{
    match (source, destination) {
        (IpAddress::V4(from), IpAddress::V4(to)) => {
            let plain = emit_ipv4(from, to, UDP, len, HOP_LIMIT);
            let ghost before = plain@;
            let marked = mark_ipv4_fragment(plain, (id % 0x1_0000) as u16, more, offset as u16);
            proof {
                assert(marked@[0] == marked@.take(4)[0] && before[0] == before.take(4)[0]);
                assert(marked@[1] == marked@.take(4)[1] && before[1] == before.take(4)[1]);
                assert(marked@[2] == marked@.take(4)[2] && before[2] == before.take(4)[2]);
                assert(marked@[3] == marked@.take(4)[3] && before[3] == before.take(4)[3]);
                assert(marked@[8] == marked@.subrange(8, 10)[0] && before[8] == before.subrange(
                    8,
                    10,
                )[0]);
                assert(marked@[9] == marked@.subrange(8, 10)[1] && before[9] == before.subrange(
                    8,
                    10,
                )[1]);
                assert forall|i: int| 12 <= i < 20 implies #[trigger] marked@[i] == before[i] by {
                    assert(marked@[i] == marked@.skip(12)[i - 12]);
                    assert(before[i] == before.skip(12)[i - 12]);
                }
            }
            marked
        },
        (IpAddress::V6(from), IpAddress::V6(to)) => {
            let mut bytes = emit_ipv6(from, to, IPV6_FRAGMENT, 8 + len, HOP_LIMIT);
            let ghost first = bytes@;
            bytes.push(UDP);
            bytes.push(0);
            let mut fields = emit_ipv6_fragment((offset / 8) as u16, more, id);
            let ghost second = fields@;
            bytes.append(&mut fields);
            proof {
                assert(bytes@.take(40) =~= first);
                assert(bytes@.subrange(42, 48) =~= second);
            }
            bytes
        },
        _ => Vec::new(),
    }
}

/// Appends the bytes of the datagram from `offset` on that a fragment carries.
fn copy_fragment(header: &Vec<u8>, payload: &[u8], offset: usize, len: usize, out: &mut Vec<u8>)
    requires
        header@.len() == 8,
        offset == 0 || offset >= 8,
        offset == 0 ==> len >= 8,
        offset + len <= 8 + payload@.len(),
        payload@.len() <= 65535,
    ensures
        final(out)@ == old(out)@ + (header@ + payload@).subrange(offset as int, offset + len),
{
    if offset == 0 {
        out.extend_from_slice(header.as_slice());
        out.extend_from_slice(slice_subrange(payload, 0, len - 8));
    } else {
        out.extend_from_slice(slice_subrange(payload, offset - 8, offset - 8 + len));
    }
    assert(out@ =~= old(out)@ + (header@ + payload@).subrange(offset as int, offset + len));
}

/// Where a reply goes, and where it claims to come from. The outbound's reply
/// address becomes the source on the wire, so it has to be a unicast address of
/// the client's family.
pub fn reply_flow(flow: Flow, source: SocketAddress) -> (r: Option<(SocketAddress, SocketAddress)>)
    ensures
        r == (if source.ip is V4 == flow.source.ip is V4 && spec_unicast(source.ip) {
            Some((source, flow.source))
        } else {
            None
        }),
{
    if source.is_ipv4() == flow.source.is_ipv4() && unicast(source.ip) {
        Some((source, flow.source))
    } else {
        None
    }
}

/// A datagram has a form on the wire exactly when its ends are of one family, it names its
/// source, and it fits the length fields: the UDP one, and in IPv4 that of the packet with
/// its header.
pub proof fn law_datagrams_with_a_form(source: SocketAddress, destination: SocketAddress, len: int)
    requires
        0 <= len,
    ensures
        encodable(source, destination, len) <==> {
            &&& source.ip is V4 <==> destination.ip is V4
            &&& source.port != 0
            &&& 8 + len <= 65535
            &&& source.ip is V4 ==> 20 + 8 + len <= 65535
        },
{
}

/// Parts of a datagram carry as many whole units of eight as fit the link behind the
/// headers of a fragment.
pub proof fn law_parts_fill_the_link(source: SocketAddress, mtu: int)
    requires
        mtu >= 1280,
    ensures
        ({
            let size = fragment_size(source, mtu);
            let headers: int = if source.ip is V4 {
                20
            } else {
                48
            };
            &&& size % 8 == 0
            &&& headers + size <= mtu < headers + size + 8
        }),
{
}

/// A datagram travels between its own ends, as UDP, with all of its hops ahead; whole, its
/// header has twenty bytes in IPv4 and forty in IPv6.
pub proof fn law_datagrams_travel_between_their_ends(
    source: SocketAddress,
    destination: SocketAddress,
    len: usize,
)
    ensures
        ({
            let ip = udp_ip(source, destination, len as int);
            &&& ip.source == source.ip && ip.destination == destination.ip
            &&& ip.protocol == 17 && ip.hop_limit == 64 && ip.payload_len == len
            &&& source.ip is V4 ==> ip_header_len(source) == 20 && ip.spec_header_len() == 20
            &&& source.ip is V6 ==> ip_header_len(source) == 40 && ip.spec_header_len() == 40
        }),
{
}

/// A datagram that fits the link leaves in one frame, with nothing but its headers in front;
/// one that does not leaves in several.
pub proof fn law_fitting_datagrams_are_not_cut(
    frames: Seq<Bytes>,
    mtu: int,
    source: SocketAddress,
    destination: SocketAddress,
    payload: Seq<u8>,
    id: u32,
)
    requires
        1280 <= mtu,
        is_framed(
            frames,
            mtu,
            source,
            destination,
            udp_bytes(source, destination, payload),
            id,
        ),
    ensures
        ({
            let whole = (if source.ip is V4 {
                28int
            } else {
                48int
            }) + payload.len();
            &&& whole <= mtu ==> frames.len() == 1 && contents(frames[0]).len() == whole
            &&& whole > mtu ==> frames.len() > 1
        }),
{
    let datagram = udp_bytes(source, destination, payload);
    assert(datagram.len() == 8 + payload.len());
    if ip_header_len(source) + datagram.len() > mtu {
        let size = fragment_size(source, mtu);
        let n = part_count(datagram.len() as int, size);
        lemma_part_count(datagram.len() as int, size);
        if n == 1 {
            assert(n * size == size) by (nonlinear_arith)
                requires
                    n == 1,
            ;
        }
    }
}

} // verus!
