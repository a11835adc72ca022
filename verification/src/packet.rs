//! Validates and normalizes IP before any transport state is allocated.
//! Reassembly is shared by TCP and UDP, fragmented initial SYNs among them.
use crate::checksum;
use crate::checksum::{
    balanced, be128, be16, be32, fold, lemma_address_sum, lemma_fold_sum, lemma_total_2, lemma_word_sum_bounds,
    pseudo_sum, word_sum,
};
use crate::wire::{
    emit_ip, ipv4_fields, ipv6_fields, ipv6_fragment, ipv6_option, is_ip_header,
    law_tcp_headers_read_as_they_stand, parse_ipv4,
    parse_ipv6, parse_ipv6_fragment, parse_ipv6_option, parse_tcp, parse_udp, read_be16,
    tcp_fields, udp_fields, IpAddress, IpHeader, SocketAddress, TcpFields, HOP_BY_HOP, ICMPV6,
    IPV6_FRAGMENT, IPV6_OPTIONS, TCP, UDP,
};
use vstd::prelude::*;
use vstd::slice::slice_subrange;

verus! {

/// A transport flow, as the sender of its packets sees it.
#[derive(Clone, Copy, Debug, PartialEq, Eq, Hash, Structural)]
pub struct Flow {
    pub source: SocketAddress,
    pub destination: SocketAddress,
}

/// The place of a fragment in its datagram. `prefix_len` is the length of the
/// extension headers before the fragment header.
#[derive(Clone, Copy, Debug, PartialEq, Eq, Structural)]
pub struct Fragment {
    pub id: u32,
    pub offset: usize,
    pub more: bool,
    pub prefix_len: usize,
}

/// What identifies a fragmented datagram. IPv4 tells protocols apart; IPv6 does
/// not, so that fragments which disagree on the protocol meet.
#[derive(Clone, Copy, Debug, PartialEq, Eq, Hash, Structural)]
pub struct FragmentKey {
    pub source: IpAddress,
    pub destination: IpAddress,
    pub protocol: u8,
    pub id: u32,
}

/// What selects the worker of a packet.
#[derive(Clone, Copy, Debug, PartialEq, Eq, Hash, Structural)]
pub enum RouteKey {
    Flow(u8, Flow),
    Fragment(FragmentKey),
}

/// A validated packet: its header, the bytes after the IP header and extension
/// headers, and its place in a datagram where it is a fragment.
pub struct Parsed<'a> {
    pub ip: IpHeader,
    pub header_len: usize,
    pub payload: &'a [u8],
    pub fragment: Option<Fragment>,
}

/// The mathematical content of a validated packet.
pub struct ParsedView {
    pub ip: IpHeader,
    pub header_len: int,
    pub payload: Seq<u8>,
    pub fragment: Option<Fragment>,
}

impl<'a> View for Parsed<'a> {
    type V = ParsedView;

    open spec fn view(&self) -> ParsedView {
        ParsedView {
            ip: self.ip,
            header_len: self.header_len as int,
            payload: self.payload@,
            fragment: self.fragment,
        }
    }
}

impl ParsedView {
    /// A validated packet has addresses of one family and fits a 16-bit length; a
    /// fragment lies within what its family can assemble.
    pub open spec fn wf(self) -> bool {
        &&& self.ip.wf()
        &&& self.payload.len() <= 65535
        &&& self.ip.payload_len == self.payload.len()
        &&& 20 <= self.header_len <= 60
        &&& self.fragment matches Some(f) ==> {
            &&& f.offset <= 65535
            &&& f.prefix_len <= 65535
            &&& self.ip.source is V4 ==> self.payload.len() > 0 && f.offset + self.payload.len()
                <= 65515
        }
    }

    /// The key of the datagram that a fragment belongs to.
    pub open spec fn key(self) -> FragmentKey {
        FragmentKey {
            source: self.ip.source,
            destination: self.ip.destination,
            protocol: if self.ip.source is V4 {
                self.ip.protocol
            } else {
                0
            },
            id: (self.fragment->0).id,
        }
    }
}

/// An address that can name one host: no unspecified, multicast, broadcast or
/// reserved address, and no IPv4 address inside an IPv6 one.
pub open spec fn spec_unicast(address: IpAddress) -> bool {
    match address {
        IpAddress::V4(a) => 1 <= a as int / 0x100_0000 < 224,
        IpAddress::V6(a) => a != 0 && a as int / 0x100_0000_0000_0000_0000_0000_0000_0000 != 0xff
            && a as int / 0x1_0000_0000 != 0xffff,
    }
}

/// Tells addresses that can name one host from all others.
pub fn unicast(address: IpAddress) -> (r: bool)
    ensures
        r == spec_unicast(address),
{
    match address {
        IpAddress::V4(a) => {
            let octet: u32 = a / 0x100_0000;
            1 <= octet && octet < 224
        },
        IpAddress::V6(a) => a != 0 && a / 0x100_0000_0000_0000_0000_0000_0000_0000 != 0xff && a
            / 0x1_0000_0000 != 0xffff,
    }
}

/// IPv4 options that stay within their bytes and ask for no source route.
pub open spec fn ipv4_options_allowed(o: Seq<u8>) -> bool
    decreases o.len(),
{
    if o.len() == 0 || o[0] == 0 {
        true
    } else if o[0] == 1 {
        ipv4_options_allowed(o.skip(1))
    } else if o[0] == 131 || o[0] == 137 {
        false
    } else if o.len() >= 2 && 2 <= o[1] <= o.len() {
        ipv4_options_allowed(o.skip(o[1] as int))
    } else {
        false
    }
}

/// Checks IPv4 options. Source routing is outside the policy of a unicast proxy.
pub fn ipv4_options(options: &[u8]) -> (r: bool)
    ensures
        r == ipv4_options_allowed(options@),
{
    let mut at: usize = 0;
    assert(options@.skip(0) =~= options@);
    while at < options.len()
        invariant
            at <= options@.len(),
            ipv4_options_allowed(options@) == ipv4_options_allowed(options@.skip(at as int)),
        decreases options@.len() - at,
    {
        let kind: u8 = options[at];
        if kind == 0 {
            return true;
        }
        if kind == 1 {
            assert(options@.skip(at as int).skip(1) =~= options@.skip(at as int + 1));
            at = at + 1;
            continue;
        }
        if kind == 131 || kind == 137 {
            return false;
        }
        if options.len() - at < 2 {
            return false;
        }
        let len: usize = options[at + 1] as usize;
        if len < 2 || len > options.len() - at {
            return false;
        }
        assert(options@.skip(at as int).skip(len as int) =~= options@.skip(at as int + len));
        at = at + len;
    }
    true
}

/// IPv6 options that are complete and that a receiver may pass over when it does
/// not know them: the two top bits of such a type are zero.
pub open spec fn ipv6_options_allowed(o: Seq<u8>) -> bool
    decreases o.len(),
{
    if o.len() == 0 {
        true
    } else {
        match ipv6_option(o) {
            Some(option) => (option.unknown matches Some(kind) ==> kind < 64)
                && ipv6_options_allowed(o.skip(option.len as int)),
            None => false,
        }
    }
}

/// Checks the options of an IPv6 options header.
pub fn ipv6_options(options: &[u8]) -> (r: bool)
    ensures
        r == ipv6_options_allowed(options@),
{
    let mut at: usize = 0;
    assert(options@.skip(0) =~= options@);
    while at < options.len()
        invariant
            at <= options@.len(),
            ipv6_options_allowed(options@) == ipv6_options_allowed(options@.skip(at as int)),
        decreases options@.len() - at,
    {
        let rest = slice_subrange(options, at, options.len());
        assert(rest@ =~= options@.skip(at as int));
        match parse_ipv6_option(rest) {
            None => {
                return false;
            },
            Some(option) => {
                if let Some(kind) = option.unknown {
                    if kind >= 64 {
                        return false;
                    }
                }
                assert(rest@.skip(option.len as int) =~= options@.skip(at as int + option.len));
                at = at + option.len;
            },
        }
    }
    true
}

/// What an IPv6 extension chain leads to: the transport protocol, the bytes
/// after the chain, and the fragment that its fragment header describes.
pub struct Extensions<'a> {
    pub protocol: u8,
    pub payload: &'a [u8],
    pub fragment: Option<Fragment>,
}

pub open spec fn transport(protocol: u8) -> bool {
    protocol == TCP || protocol == UDP || protocol == ICMPV6
}

/// A fragment header at the start of `s`, `prefix` bytes into the chain. The
/// upper-layer header follows it directly. A fragment that is the whole datagram
/// is no fragment.
pub open spec fn fragment_header(s: Seq<u8>, prefix: int) -> Option<
    (u8, Seq<u8>, Option<Fragment>),
> {
    if s.len() < 8 || !transport(s[0]) {
        None
    } else {
        let fields = ipv6_fragment(s.subrange(2, 8))->0;
        let fragment = Fragment {
            id: fields.id,
            offset: (fields.offset * 8) as usize,
            more: fields.more,
            prefix_len: prefix as usize,
        };
        Some(
            (
                s[0],
                s.skip(8),
                if fragment.offset != 0 || fragment.more {
                    Some(fragment)
                } else {
                    None
                },
            ),
        )
    }
}

/// The extension chain that starts `prefix` bytes into the payload with header
/// `index`. At most eight headers are read, and hop-by-hop options come first.
pub open spec fn extension_chain(protocol: u8, s: Seq<u8>, prefix: int, index: int) -> Option<
    (u8, Seq<u8>, Option<Fragment>),
>
    decreases 8 - index,
{
    if index >= 8 {
        None
    } else if protocol == HOP_BY_HOP || protocol == IPV6_OPTIONS {
        let len = s[1] * 8 + 8;
        if protocol == HOP_BY_HOP && index != 0 {
            None
        } else if s.len() < 8 || s.len() < len || !ipv6_options_allowed(s.subrange(2, len)) {
            None
        } else {
            extension_chain(s[0], s.skip(len), prefix + len, index + 1)
        }
    } else if protocol == IPV6_FRAGMENT {
        fragment_header(s, prefix)
    } else if transport(protocol) {
        Some((protocol, s, None))
    } else {
        None
    }
}

/// Follows the extension headers of an IPv6 payload. A finite chain bounds the
/// work even for tiny headers; routing and security extensions are refused.
pub fn ipv6_extensions<'a>(first: u8, payload: &'a [u8]) -> (r: Option<Extensions<'a>>)
    requires
        payload@.len() <= 65535,
    ensures
        match (r, extension_chain(first, payload@, 0, 0)) {
            (Some(e), Some(x)) => e.protocol == x.0 && e.payload@ == x.1 && e.fragment == x.2,
            (None, None) => true,
            _ => false,
        },
{
    let mut protocol: u8 = first;
    let mut at: usize = 0;
    let mut index: usize = 0;
    assert(payload@.skip(0) =~= payload@);
    while index < 8
        invariant
            index <= 8,
            at <= payload@.len() <= 65535,
            extension_chain(first, payload@, 0, 0) == extension_chain(
                protocol,
                payload@.skip(at as int),
                at as int,
                index as int,
            ),
        decreases 8 - index,
    {
        let rest = slice_subrange(payload, at, payload.len());
        assert(rest@ =~= payload@.skip(at as int));
        if protocol == HOP_BY_HOP || protocol == IPV6_OPTIONS {
            if protocol == HOP_BY_HOP && index != 0 {
                return None;
            }
            if rest.len() < 8 {
                return None;
            }
            let len: usize = rest[1] as usize * 8 + 8;
            if rest.len() < len || !ipv6_options(slice_subrange(rest, 2, len)) {
                return None;
            }
            protocol = rest[0];
            assert(rest@.skip(len as int) =~= payload@.skip(at as int + len));
            at = at + len;
        } else if protocol == IPV6_FRAGMENT {
            if rest.len() < 8 {
                return None;
            }
            let fields = parse_ipv6_fragment(slice_subrange(rest, 2, 8))?;
            let next: u8 = rest[0];
            if !(next == TCP || next == UDP || next == ICMPV6) {
                return None;
            }
            let offset: usize = fields.offset as usize * 8;
            let fragment = if offset != 0 || fields.more {
                Some(Fragment { id: fields.id, offset, more: fields.more, prefix_len: at })
            } else {
                None
            };
            let body = slice_subrange(rest, 8, rest.len());
            assert(body@ =~= rest@.skip(8));
            return Some(Extensions { protocol: next, payload: body, fragment });
        } else if protocol == TCP || protocol == UDP || protocol == ICMPV6 {
            return Some(Extensions { protocol, payload: rest, fragment: None });
        } else {
            return None;
        }
        index = index + 1;
    }
    None
}

/// The validated content of an IPv4 packet, addresses and hop limit aside.
pub open spec fn parse_v4(data: Seq<u8>) -> Option<ParsedView> {
    match ipv4_fields(data) {
        None => None,
        Some(f) => {
            let payload = data.subrange(f.header_len as int, f.total_len as int);
            let fragmented = f.more || f.offset != 0;
            if !ipv4_options_allowed(data.subrange(20, f.header_len as int)) {
                None
            } else if fragmented && (payload.len() == 0 || f.offset + payload.len() > 65515 || (
            f.more && payload.len() % 8 != 0)) {
                None
            } else {
                Some(
                    ParsedView {
                        ip: IpHeader {
                            source: IpAddress::V4(f.source),
                            destination: IpAddress::V4(f.destination),
                            protocol: f.protocol,
                            payload_len: (f.total_len - f.header_len) as usize,
                            hop_limit: f.hop_limit,
                        },
                        header_len: f.header_len as int,
                        payload,
                        fragment: if fragmented {
                            Some(
                                Fragment {
                                    id: f.id as u32,
                                    offset: f.offset as usize,
                                    more: f.more,
                                    prefix_len: 0,
                                },
                            )
                        } else {
                            None
                        },
                    },
                )
            }
        },
    }
}

/// The validated content of an IPv6 packet, addresses and hop limit aside.
pub open spec fn parse_v6(data: Seq<u8>) -> Option<ParsedView> {
    match ipv6_fields(data) {
        None => None,
        Some(f) => match extension_chain(
            f.next_header,
            data.subrange(40, 40 + f.payload_len),
            0,
            0,
        ) {
            None => None,
            Some(chain) => Some(
                ParsedView {
                    ip: IpHeader {
                        source: IpAddress::V6(f.source),
                        destination: IpAddress::V6(f.destination),
                        protocol: chain.0,
                        payload_len: chain.1.len() as usize,
                        hop_limit: f.hop_limit,
                    },
                    header_len: 40,
                    payload: chain.1,
                    fragment: chain.2,
                },
            ),
        },
    }
}

/// What a packet is, where it is valid: either version, both addresses unicast,
/// and a hop left.
pub open spec fn spec_parse(data: Seq<u8>) -> Option<ParsedView> {
    let parsed = if data.len() == 0 {
        None
    } else if data[0] / 16 == 4 {
        parse_v4(data)
    } else if data[0] / 16 == 6 {
        parse_v6(data)
    } else {
        None
    };
    match parsed {
        Some(p) => if spec_unicast(p.ip.source) && spec_unicast(p.ip.destination) && p.ip.hop_limit
            != 0 {
            Some(p)
        } else {
            None
        },
        None => None,
    }
}

fn parse_ipv4_packet<'a>(data: &'a [u8]) -> (r: Option<Parsed<'a>>)
    ensures
        r is Some == parse_v4(data@) is Some,
        r is Some ==> r->0@ == parse_v4(data@)->0,
{
    let fields = parse_ipv4(data)?;
    if !ipv4_options(slice_subrange(data, 20, fields.header_len)) {
        return None;
    }
    let payload = slice_subrange(data, fields.header_len, fields.total_len);
    let fragmented: bool = fields.more || fields.offset != 0;
    if fragmented && (payload.len() == 0 || fields.offset as usize + payload.len() > 65515 || (
    fields.more && payload.len() % 8 != 0)) {
        return None;
    }
    let fragment = if fragmented {
        Some(
            Fragment {
                id: fields.id as u32,
                offset: fields.offset as usize,
                more: fields.more,
                prefix_len: 0,
            },
        )
    } else {
        None
    };
    Some(
        Parsed {
            ip: IpHeader {
                source: IpAddress::V4(fields.source),
                destination: IpAddress::V4(fields.destination),
                protocol: fields.protocol,
                payload_len: payload.len(),
                hop_limit: fields.hop_limit,
            },
            header_len: fields.header_len,
            payload,
            fragment,
        },
    )
}

fn parse_ipv6_packet<'a>(data: &'a [u8]) -> (r: Option<Parsed<'a>>)
    ensures
        r is Some == parse_v6(data@) is Some,
        r is Some ==> r->0@ == parse_v6(data@)->0,
{
    let fields = parse_ipv6(data)?;
    let chain = ipv6_extensions(
        fields.next_header,
        slice_subrange(data, 40, 40 + fields.payload_len),
    )?;
    Some(
        Parsed {
            ip: IpHeader {
                source: IpAddress::V6(fields.source),
                destination: IpAddress::V6(fields.destination),
                protocol: chain.protocol,
                payload_len: chain.payload.len(),
                hop_limit: fields.hop_limit,
            },
            header_len: 40,
            payload: chain.payload,
            fragment: chain.fragment,
        },
    )
}

/// Validates one packet and finds its transport bytes.
pub fn parse<'a>(data: &'a [u8]) -> (r: Option<Parsed<'a>>)
    ensures
        r is Some == spec_parse(data@) is Some,
        r matches Some(p) ==> p@ == spec_parse(data@)->0 && p@.wf(),
{
    proof {
        lemma_parse_bounds(data@);
    }
    if data.len() == 0 {
        return None;
    }
    let version: u8 = data[0] / 16;
    let parsed = if version == 4 {
        parse_ipv4_packet(data)?
    } else if version == 6 {
        parse_ipv6_packet(data)?
    } else {
        return None;
    };
    if !unicast(parsed.ip.source) || !unicast(parsed.ip.destination) || parsed.ip.hop_limit == 0 {
        return None;
    }
    Some(parsed)
}

/// The bytes of a packet's transport: a view of the frame that carried it, or
/// the product of a reassembly.
pub enum Payload<'a> {
    Borrowed(&'a [u8]),
    Owned(Vec<u8>),
}

impl<'a> View for Payload<'a> {
    type V = Seq<u8>;

    open spec fn view(&self) -> Seq<u8> {
        match self {
            Payload::Borrowed(bytes) => bytes@,
            Payload::Owned(bytes) => bytes@,
        }
    }
}

impl<'a> Payload<'a> {
    pub fn as_slice(&self) -> (r: &[u8])
        ensures
            r@ == self@,
    {
        match self {
            Payload::Borrowed(bytes) => bytes,
            Payload::Owned(bytes) => bytes.as_slice(),
        }
    }

    pub fn into_vec(self) -> (r: Vec<u8>)
        ensures
            r@ == self@,
    {
        match self {
            Payload::Borrowed(bytes) => vstd::slice::slice_to_vec(bytes),
            Payload::Owned(bytes) => bytes,
        }
    }
}

/// A whole datagram, free of IP options, extension headers and fragmentation.
pub struct Packet<'a> {
    pub ip: IpHeader,
    pub payload: Payload<'a>,
}

/// A TCP segment of a flow.
pub struct Segment<'a> {
    pub flow: Flow,
    pub fields: TcpFields,
    pub payload: &'a [u8],
}

pub open spec fn flow_of(ip: IpHeader, source_port: u16, destination_port: u16) -> Flow {
    Flow {
        source: SocketAddress { ip: ip.source, port: source_port },
        destination: SocketAddress { ip: ip.destination, port: destination_port },
    }
}

/// Whether a transport checksum is valid over the pseudo-header and `s`.
pub open spec fn transport_balanced(ip: IpHeader, s: Seq<u8>) -> bool {
    balanced(pseudo_sum(ip.source, ip.destination, ip.protocol as int, s.len() as int) + word_sum(s))
}

/// The UDP datagram in `s`: its flow and its payload. The IP payload may be
/// padded; the UDP length bounds the datagram. IPv6 has no datagram without a
/// checksum. `verified` says that the checksum needs no test.
pub open spec fn udp_datagram(ip: IpHeader, s: Seq<u8>, verified: bool) -> Option<
    (Flow, Seq<u8>),
> {
    match udp_fields(s) {
        None => None,
        Some(f) => {
            let udp = IpHeader { protocol: UDP, ..ip };
            if f.destination_port == 0 || (ip.source is V6 && f.checksum == 0) {
                None
            } else if !verified && f.checksum != 0 && !transport_balanced(
                udp,
                s.take(f.len as int),
            ) {
                None
            } else {
                Some(
                    (
                        flow_of(ip, f.source_port, f.destination_port),
                        s.subrange(8, f.len as int),
                    ),
                )
            }
        },
    }
}

/// The TCP segment in `s`: its flow, its header and its payload. `verified` says
/// that the checksum needs no test.
pub open spec fn tcp_segment(ip: IpHeader, s: Seq<u8>, verified: bool) -> Option<
    (Flow, TcpFields, Seq<u8>),
> {
    match tcp_fields(s) {
        None => None,
        Some(f) => if verified || transport_balanced(IpHeader { protocol: TCP, ..ip }, s) {
            Some((flow_of(ip, f.source_port, f.destination_port), f, s.skip(f.header_len as int)))
        } else {
            None
        },
    }
}

/// Tests a transport checksum.
pub fn checksum_valid(ip: &IpHeader, protocol: u8, data: &[u8]) -> (r: bool)
    requires
        ip.wf(),
        data@.len() <= 65535,
    ensures
        r == transport_balanced(IpHeader { protocol, ..*ip }, data@),
{
    let pseudo: u16 = checksum::pseudo_header(
        ip.source,
        ip.destination,
        protocol,
        data.len() as u16,
    );
    let sum: u16 = checksum::data(data);
    let sums = [pseudo, sum];
    let all: u16 = checksum::combine(&sums);
    proof {
        let a = pseudo_sum(ip.source, ip.destination, protocol as int, data@.len() as int);
        let b = word_sum(data@);
        lemma_word_sum_bounds(data@);
        lemma_address_sum(ip.source);
        lemma_address_sum(ip.destination);
        lemma_fold_sum(a, b);
        lemma_fold_sum(fold(a), b);
        lemma_total_2(sums@);
    }
    all == 0xffff
}

impl<'a> Packet<'a> {
    /// The header's length field agrees with the payload, which fits 16 bits.
    pub open spec fn wf(self) -> bool {
        &&& self.ip.wf()
        &&& self.ip.payload_len == self.payload@.len()
        &&& self.payload@.len() <= 65535
    }

    pub fn into_owned(self) -> (r: Packet<'static>)
        ensures
            r.ip == self.ip,
            r.payload@ == self.payload@,
    {
        Packet { ip: self.ip, payload: Payload::Owned(self.payload.into_vec()) }
    }

    /// How many bytes the packet keeps alive.
    pub fn storage_size(&self) -> (r: usize)
        ensures
            r == self.payload@.len(),
    {
        self.payload.as_slice().len()
    }

    /// Writes the packet: a header without options, then the payload.
    pub fn encode(&self) -> (r: Vec<u8>)
        requires
            self.wf(),
            self.payload@.len() <= self.ip.max_payload(),
        ensures
            r@.len() == self.ip.spec_header_len() + self.payload@.len(),
            is_ip_header(r@.take(self.ip.spec_header_len()), self.ip),
            r@.skip(self.ip.spec_header_len()) == self.payload@,
    {
        let mut data = emit_ip(&self.ip);
        let ghost header = data@;
        data.extend_from_slice(self.payload.as_slice());
        assert(data@ =~= header + self.payload@);
        assert(data@.take(header.len() as int) =~= header);
        assert(data@.skip(header.len() as int) =~= self.payload@);
        data
    }

    /// The TCP segment that the packet carries, its checksum tested.
    pub fn tcp(&self) -> (r: Option<Segment<'_>>)
        requires
            self.wf(),
        ensures
            r is Some == tcp_segment(self.ip, self.payload@, false) is Some,
            r matches Some(x) ==> tcp_segment(self.ip, self.payload@, false) == Some(
                (x.flow, x.fields, x.payload@),
            ),
    {
        self.tcp_with_checksum(false)
    }

    /// The TCP segment that the packet carries. Its checksum is tested unless
    /// the receiver has verified it.
    pub fn tcp_with_checksum(&self, verified: bool) -> (r: Option<Segment<'_>>)
        requires
            self.wf(),
        ensures
            r is Some == tcp_segment(self.ip, self.payload@, verified) is Some,
            r matches Some(x) ==> tcp_segment(self.ip, self.payload@, verified) == Some(
                (x.flow, x.fields, x.payload@),
            ),
    {
        let data = self.payload.as_slice();
        let fields = parse_tcp(data)?;
        if !verified && !checksum_valid(&self.ip, TCP, data) {
            return None;
        }
        let payload = slice_subrange(data, fields.header_len, data.len());
        assert(payload@ =~= data@.skip(fields.header_len as int));
        Some(
            Segment { flow: self.flow(fields.source_port, fields.destination_port), fields, payload },
        )
    }

    /// The UDP datagram that the packet carries, its checksum tested.
    pub fn udp(&self) -> (r: Option<(Flow, &[u8])>)
        requires
            self.wf(),
        ensures
            r is Some == udp_datagram(self.ip, self.payload@, false) is Some,
            r matches Some(x) ==> udp_datagram(self.ip, self.payload@, false) == Some((x.0, x.1@)),
    {
        self.udp_with_checksum(false)
    }

    /// The UDP datagram that the packet carries. Its checksum is tested unless
    /// the receiver has verified it.
    pub fn udp_with_checksum(&self, verified: bool) -> (r: Option<(Flow, &[u8])>)
        requires
            self.wf(),
        ensures
            r is Some == udp_datagram(self.ip, self.payload@, verified) is Some,
            r matches Some(x) ==> udp_datagram(self.ip, self.payload@, verified) == Some(
                (x.0, x.1@),
            ),
    {
        let data = self.payload.as_slice();
        let fields = parse_udp(data)?;
        if fields.destination_port == 0 || (!self.ip.source.is_ipv4() && fields.checksum == 0) {
            return None;
        }
        let datagram = slice_subrange(data, 0, fields.len);
        assert(datagram@ =~= data@.take(fields.len as int));
        if !verified && fields.checksum != 0 && !checksum_valid(&self.ip, UDP, datagram) {
            return None;
        }
        Some(
            (
                self.flow(fields.source_port, fields.destination_port),
                slice_subrange(data, 8, fields.len),
            ),
        )
    }

    fn flow(&self, source: u16, destination: u16) -> (r: Flow)
        ensures
            r == flow_of(self.ip, source, destination),
    {
        Flow {
            source: SocketAddress::new(self.ip.source, source),
            destination: SocketAddress::new(self.ip.destination, destination),
        }
    }
}

/// What an extension chain leads to lies within the payload.
proof fn lemma_chain_bounds(protocol: u8, s: Seq<u8>, prefix: int, index: int)
    requires
        0 <= prefix,
        prefix + s.len() <= 65535,
    ensures
        extension_chain(protocol, s, prefix, index) matches Some(x) ==> x.1.len() <= s.len() && (
        x.2 matches Some(f) ==> f.prefix_len <= 65535 && f.offset <= 65535 && f.offset % 8 == 0),
    decreases 8 - index,
{
    if index < 8 && (protocol == HOP_BY_HOP || protocol == IPV6_OPTIONS) && s.len() >= 8 {
        let len = s[1] * 8 + 8;
        if s.len() >= len {
            lemma_chain_bounds(s[0], s.skip(len), prefix + len, index + 1);
        }
    }
}

/// What validation accepts is well formed.
pub proof fn lemma_parse_bounds(data: Seq<u8>)
    ensures
        spec_parse(data) matches Some(p) ==> p.wf(),
{
    match ipv6_fields(data) {
        Some(f) => {
            lemma_chain_bounds(f.next_header, data.subrange(40, 40 + f.payload_len), 0, 0);
        },
        None => {},
    }
}

/// The route of a validated packet that is no fragment: its flow, where it is TCP
/// or UDP and names a destination port.
pub open spec fn flow_route(p: ParsedView) -> Option<RouteKey> {
    if (p.ip.protocol == TCP || p.ip.protocol == UDP) && p.payload.len() >= 4 && be16(p.payload, 2)
        != 0 {
        Some(
            RouteKey::Flow(
                p.ip.protocol,
                flow_of(p.ip, be16(p.payload, 0) as u16, be16(p.payload, 2) as u16),
            ),
        )
    } else {
        None
    }
}

/// What selects the worker of a validated packet.
pub open spec fn spec_route(p: ParsedView) -> Option<RouteKey> {
    if p.fragment is Some {
        Some(RouteKey::Fragment(p.key()))
    } else {
        flow_route(p)
    }
}

/// What the first fragment of a datagram says of its flow.
pub open spec fn spec_first_route(p: ParsedView) -> Option<RouteKey> {
    match p.fragment {
        Some(f) => if f.offset == 0 {
            flow_route(p)
        } else {
            None
        },
        None => None,
    }
}

impl<'a> Parsed<'a> {
    /// The key of the datagram that a fragment belongs to.
    pub fn key(&self) -> (r: FragmentKey)
        requires
            self.fragment is Some,
        ensures
            r == self@.key(),
    {
        let id: u32 = match self.fragment {
            Some(fragment) => fragment.id,
            None => 0,
        };
        let protocol: u8 = if self.ip.source.is_ipv4() {
            self.ip.protocol
        } else {
            0
        };
        FragmentKey { source: self.ip.source, destination: self.ip.destination, protocol, id }
    }

    fn transport_route(&self) -> (r: Option<RouteKey>)
        ensures
            r == flow_route(self@),
    {
        if self.ip.protocol != TCP && self.ip.protocol != UDP {
            return None;
        }
        if self.payload.len() < 4 {
            return None;
        }
        let source: u16 = read_be16(self.payload, 0);
        let destination: u16 = read_be16(self.payload, 2);
        if destination == 0 {
            return None;
        }
        Some(
            RouteKey::Flow(
                self.ip.protocol,
                Flow {
                    source: SocketAddress::new(self.ip.source, source),
                    destination: SocketAddress::new(self.ip.destination, destination),
                },
            ),
        )
    }

    /// What selects the packet's worker: the datagram of a fragment, the flow of
    /// anything else.
    pub fn route(&self) -> (r: Option<RouteKey>)
        ensures
            r == spec_route(self@),
    {
        if self.fragment.is_some() {
            return Some(RouteKey::Fragment(self.key()));
        }
        self.transport_route()
    }

    /// The flow of a datagram, where this is its first fragment.
    pub fn first_route(&self) -> (r: Option<RouteKey>)
        ensures
            r == spec_first_route(self@),
    {
        match self.fragment {
            Some(fragment) if fragment.offset == 0 => self.transport_route(),
            _ => None,
        }
    }
}

/// Where the transport header of an unfragmented packet starts, and its protocol.
/// The addresses play no part.
pub open spec fn transport_at(data: Seq<u8>) -> Option<(u8, int)> {
    let parsed = if data.len() == 0 {
        None
    } else if data[0] / 16 == 4 {
        parse_v4(data)
    } else if data[0] / 16 == 6 {
        parse_v6(data)
    } else {
        None
    };
    match parsed {
        Some(p) => if p.fragment is Some {
            None
        } else if data[0] / 16 == 4 {
            Some((p.ip.protocol, p.header_len))
        } else {
            Some((p.ip.protocol, 40 + be16(data, 4) - p.payload.len()))
        },
        None => None,
    }
}

/// Finds the transport header of an unfragmented packet.
pub fn offload_transport(data: &[u8]) -> (r: Option<(u8, usize)>)
    ensures
        r is Some == transport_at(data@) is Some,
        r matches Some(x) ==> transport_at(data@) == Some((x.0, x.1 as int)) && x.1 <= data@.len(),
{
    if data.len() == 0 {
        return None;
    }
    let version: u8 = data[0] / 16;
    if version == 4 {
        let parsed = parse_ipv4_packet(data)?;
        if parsed.fragment.is_some() {
            return None;
        }
        return Some((parsed.ip.protocol, parsed.header_len));
    }
    if version == 6 {
        proof {
            if ipv6_fields(data@) is Some {
                let f = ipv6_fields(data@)->0;
                lemma_chain_bounds(f.next_header, data@.subrange(40, 40 + f.payload_len), 0, 0);
            }
        }
        let parsed = parse_ipv6_packet(data)?;
        if parsed.fragment.is_some() {
            return None;
        }
        let end: usize = 40 + read_be16(data, 4) as usize;
        return Some((parsed.ip.protocol, end - parsed.payload.len()));
    }
    None
}

/// An IPv4 address names one host exactly when its first octet is neither zero nor one of
/// those for groups and reserved uses, whatever the other octets are.
pub proof fn law_ipv4_hosts_by_their_first_octet(first: u8, rest: u32)
    requires
        rest < 0x100_0000,
    ensures
        spec_unicast(IpAddress::V4((first * 0x100_0000 + rest) as u32)) <==> first != 0 && first
            <= 223,
{
}

/// An IPv6 address names one host exactly when it is not unspecified, its first octet is
/// not that of groups, and it is not an IPv4 address in the form `::ffff:a.b.c.d`.
pub proof fn law_ipv6_hosts_by_their_words(high: u64, low: u64)
    ensures
        spec_unicast(IpAddress::V6((high * 0x1_0000_0000_0000_0000 + low) as u128)) <==> {
            &&& high != 0 || low != 0
            &&& high / 0x100_0000_0000_0000 != 255
            &&& !(high == 0 && 0xffff_0000_0000 <= low <= 0xffff_ffff_ffff)
        },
{
    let a = high * 0x1_0000_0000_0000_0000 + low;
    assert(a / 0x100_0000_0000_0000_0000_0000_0000_0000 == high / 0x100_0000_0000_0000)
        by (nonlinear_arith)
        requires
            a == high * 0x1_0000_0000_0000_0000 + low,
            0 <= low < 0x1_0000_0000_0000_0000,
            0 <= high,
    ;
    assert(a / 0x1_0000_0000 == high * 0x1_0000_0000 + low / 0x1_0000_0000) by (nonlinear_arith)
        requires
            a == high * 0x1_0000_0000_0000_0000 + low,
            0 <= low,
            0 <= high,
    ;
}

/// IPv4 options are walked one by one. No options, or an end mark, are allowed whatever
/// follows the mark; a filler and any whole option are passed over; a source route is
/// refused wherever the walk meets it, and so is an option that is not all there.
pub proof fn law_ipv4_options_are_walked(kind: u8, body: Seq<u8>, rest: Seq<u8>)
    requires
        body.len() <= 253,
    ensures
        ipv4_options_allowed(Seq::empty()),
        ipv4_options_allowed(seq![0u8] + rest),
        ipv4_options_allowed(seq![1u8] + rest) == ipv4_options_allowed(rest),
        !ipv4_options_allowed(seq![131u8] + rest),
        !ipv4_options_allowed(seq![137u8] + rest),
        kind != 0 && kind != 1 && kind != 131 && kind != 137 ==> {
            &&& ipv4_options_allowed(seq![kind, (body.len() + 2) as u8] + body + rest)
                == ipv4_options_allowed(rest)
            &&& !ipv4_options_allowed(seq![kind])
            &&& body.len() > 0 ==> !ipv4_options_allowed(
                seq![kind, (body.len() + 2) as u8] + body.drop_last(),
            )
            &&& !ipv4_options_allowed(seq![kind, 0u8] + rest)
            &&& !ipv4_options_allowed(seq![kind, 1u8] + rest)
        },
{
    assert((seq![1u8] + rest).skip(1) =~= rest);
    let whole = seq![kind, (body.len() + 2) as u8] + body + rest;
    assert(whole.skip(body.len() + 2int) =~= rest);
}

/// IPv6 options are walked one by one. Padding is passed over, and so is a whole option
/// of a kind that a receiver may skip; a kind that asks for more than that is refused, and
/// so is an option that is not all there.
pub proof fn law_ipv6_options_are_walked(kind: u8, body: Seq<u8>, rest: Seq<u8>)
    requires
        body.len() <= 255,
    ensures
        ipv6_options_allowed(Seq::empty()),
        ipv6_options_allowed(seq![0u8] + rest) == ipv6_options_allowed(rest),
        ({
            let whole = seq![kind, body.len() as u8] + body;
            &&& kind == 1 ==> ipv6_options_allowed(whole + rest) == ipv6_options_allowed(rest)
            &&& 1 < kind < 64 && kind != 5 ==> ipv6_options_allowed(whole + rest)
                == ipv6_options_allowed(rest)
            &&& kind == 5 && body.len() == 2 ==> ipv6_options_allowed(whole + rest)
                == ipv6_options_allowed(rest)
            &&& kind >= 64 ==> !ipv6_options_allowed(whole + rest)
            &&& kind != 0 && body.len() > 0 ==> !ipv6_options_allowed(whole.drop_last())
            &&& kind != 0 ==> !ipv6_options_allowed(seq![kind])
        }),
{
    assert((seq![0u8] + rest).skip(1) =~= rest);
    let whole = seq![kind, body.len() as u8] + body;
    assert((whole + rest).skip(body.len() + 2int) =~= rest);
    assert((whole + rest)[1] == body.len());
    assert(body.len() > 0 ==> whole.drop_last()[1] == body.len());
}

/// An extension header with options that may be passed over leads to what follows it,
/// further into the packet; one with others leads nowhere. Hop-by-hop options come first
/// or not at all.
pub proof fn law_extension_headers_are_passed_over(
    next: u8,
    options: Seq<u8>,
    rest: Seq<u8>,
    prefix: int,
    index: int,
)
    requires
        options.len() % 8 == 6,
        options.len() <= 2046,
        0 <= index < 8,
    ensures
        ({
            let s = seq![next, (options.len() / 8) as u8] + options + rest;
            let beyond = extension_chain(next, rest, prefix + options.len() + 2, index + 1);
            &&& ipv6_options_allowed(options) ==> extension_chain(60, s, prefix, index) == beyond
            &&& ipv6_options_allowed(options) && index == 0 ==> extension_chain(0, s, prefix, index)
                == beyond
            &&& index != 0 ==> extension_chain(0, s, prefix, index) is None
            &&& !ipv6_options_allowed(options) ==> extension_chain(60, s, prefix, index) is None
                && extension_chain(0, s, prefix, index) is None
        }),
{
    let s = seq![next, (options.len() / 8) as u8] + options + rest;
    let len = s[1] * 8 + 8;
    assert(len == options.len() + 2);
    assert(s.subrange(2, len) =~= options);
    assert(s.skip(len) =~= rest);
}

/// A chain of extension headers ends at TCP, UDP or ICMPv6, the last of at most eight
/// headers, and what it leads to is the end of the bytes. Anything else is refused.
pub proof fn law_chains_lead_to_a_transport(protocol: u8, s: Seq<u8>, prefix: int, index: int)
    ensures
        extension_chain(protocol, s, prefix, index) matches Some(x) ==> {
            &&& x.0 == 6 || x.0 == 17 || x.0 == 58
            &&& index < 8
            &&& x.1.len() <= s.len()
            &&& x.1 == s.skip(s.len() - x.1.len())
        },
        index < 8 && (protocol == 6 || protocol == 17 || protocol == 58) ==> extension_chain(
            protocol,
            s,
            prefix,
            index,
        ) == Some((protocol, s, None::<Fragment>)),
        protocol != 0 && protocol != 6 && protocol != 17 && protocol != 44 && protocol != 58
            && protocol != 60 ==> extension_chain(protocol, s, prefix, index) is None,
    decreases 8 - index,
{
    if index < 8 && (protocol == HOP_BY_HOP || protocol == IPV6_OPTIONS) && s.len() >= 8 {
        let len = s[1] * 8 + 8;
        if s.len() >= len {
            law_chains_lead_to_a_transport(s[0], s.skip(len), prefix + len, index + 1);
            match extension_chain(s[0], s.skip(len), prefix + len, index + 1) {
                Some(x) => {
                    assert(s.skip(len).skip(s.skip(len).len() - x.1.len()) =~= s.skip(
                        s.len() - x.1.len(),
                    ));
                },
                None => {},
            }
        }
    }
    assert(s.skip(0) =~= s);
}

/// A fragment header is read as its bytes stand: the upper protocol, thirteen bits of
/// offset in units of eight, one bit for more, and the identification. One that covers the
/// whole datagram makes no fragment of it.
pub proof fn law_fragment_headers_read_as_they_stand(s: Seq<u8>, prefix: int, index: int)
    requires
        0 <= index < 8,
        0 <= prefix <= 65535,
    ensures
        ({
            let found = extension_chain(44, s, prefix, index);
            let word = 256 * s[2] + s[3];
            &&& found is Some <==> s.len() >= 8 && (s[0] == 6 || s[0] == 17 || s[0] == 58)
            &&& found matches Some(x) ==> {
                &&& x.0 == s[0]
                &&& x.1 == s.skip(8)
                &&& x.2 is Some <==> word >= 8 || s[3] % 2 == 1
                &&& x.2 matches Some(f) ==> {
                    &&& f.offset == word / 8 * 8
                    &&& f.more == (s[3] % 2 == 1)
                    &&& f.id == 0x100_0000 * s[4] + 0x1_0000 * s[5] + 0x100 * s[6] + s[7]
                    &&& f.prefix_len == prefix
                }
            }
        }),
{
    if s.len() >= 8 {
        let t = s.subrange(2, 8);
        assert(t[0] == s[2] && t[1] == s[3] && t[2] == s[4] && t[3] == s[5] && t[4] == s[6] && t[5]
            == s[7]);
    }
}

/// What validation accepts as IPv4 is a packet between hosts that has a hop left, and is
/// what its bytes say: the addresses, the protocol, and as payload the bytes behind the
/// header, up to the end that the header gives. A fragment carries something, ends within
/// the largest datagram, and, unless it is the last, carries whole units of eight.
pub proof fn law_ipv4_packets_are_what_their_bytes_say(data: Seq<u8>)
    requires
        data.len() > 0,
        data[0] / 16 == 4,
    ensures
        spec_parse(data) matches Some(p) ==> {
            let end = 256 * data[2] + data[3];
            let word = 256 * data[6] + data[7];
            &&& p.ip.source == IpAddress::V4(be32(data, 12) as u32)
            &&& p.ip.destination == IpAddress::V4(be32(data, 16) as u32)
            &&& spec_unicast(p.ip.source) && spec_unicast(p.ip.destination)
            &&& p.ip.protocol == data[9]
            &&& p.ip.hop_limit == data[8] && data[8] > 0
            &&& p.header_len == 4 * (data[0] % 16)
            &&& 20 <= p.header_len <= end <= data.len()
            &&& p.payload == data.subrange(p.header_len, end)
            &&& p.ip.payload_len == p.payload.len()
            &&& balanced(word_sum(data.take(p.header_len)))
            &&& p.fragment is Some <==> word % 0x4000 != 0
            &&& p.fragment matches Some(f) ==> {
                &&& f.id == 256 * data[4] + data[5]
                &&& f.offset == word % 0x2000 * 8
                &&& f.more == (word / 0x2000 % 2 == 1)
                &&& p.payload.len() > 0
                &&& f.offset + p.payload.len() <= 65515
                &&& f.more ==> p.payload.len() % 8 == 0
            }
        },
{
    let word = 256 * data[6] + data[7];
    assert(data[6] / 32 % 2 == word / 0x2000 % 2);
    assert(word % 0x4000 == word / 0x2000 % 2 * 0x2000 + word % 0x2000);
}

/// What validation accepts as IPv6 is a packet between hosts that has a hop left, and is
/// what its bytes say: the addresses, and as payload what the extension headers lead to,
/// up to the end that the header gives. Without extension headers that is all that follows
/// the header.
pub proof fn law_ipv6_packets_are_what_their_bytes_say(data: Seq<u8>)
    requires
        data.len() > 0,
        data[0] / 16 == 6,
    ensures
        spec_parse(data) matches Some(p) ==> {
            let end = 40 + 256 * data[4] + data[5];
            &&& p.ip.source == IpAddress::V6(be128(data, 8) as u128)
            &&& p.ip.destination == IpAddress::V6(be128(data, 24) as u128)
            &&& spec_unicast(p.ip.source) && spec_unicast(p.ip.destination)
            &&& p.ip.hop_limit == data[7] && data[7] > 0
            &&& p.header_len == 40
            &&& p.ip.protocol == 6 || p.ip.protocol == 17 || p.ip.protocol == 58
            &&& end <= data.len()
            &&& 40 + p.payload.len() <= end
            &&& p.payload == data.subrange(end - p.payload.len(), end)
            &&& p.ip.payload_len == p.payload.len()
            &&& data[6] == 6 || data[6] == 17 || data[6] == 58 ==> p.ip.protocol == data[6]
                && p.payload.len() == end - 40 && p.fragment is None
        },
{
    match ipv6_fields(data) {
        Some(f) => {
            let s = data.subrange(40, 40 + f.payload_len);
            law_chains_lead_to_a_transport(f.next_header, s, 0, 0);
            match extension_chain(f.next_header, s, 0, 0) {
                Some(x) => {
                    assert(s.skip(s.len() - x.1.len()) =~= data.subrange(
                        40 + f.payload_len - x.1.len(),
                        40 + f.payload_len,
                    ));
                },
                None => {},
            }
        },
        None => {},
    }
}

/// What is of neither version is refused.
pub proof fn law_other_versions_are_refused(data: Seq<u8>)
    requires
        data.len() == 0 || (data[0] / 16 != 4 && data[0] / 16 != 6),
    ensures
        spec_parse(data) is None,
        transport_at(data) is None,
{
}

/// A whole IPv4 packet between hosts is accepted: one with sound lengths, a balanced
/// header, options that may be passed over, a hop left, and no place in a larger datagram.
pub proof fn law_sound_ipv4_packets_are_accepted(data: Seq<u8>)
    requires
        data.len() >= 20,
        data[0] / 16 == 4,
        5 <= data[0] % 16,
        4 * (data[0] % 16) <= 256 * data[2] + data[3] <= data.len(),
        balanced(word_sum(data.take(4 * (data[0] % 16)))),
        ipv4_options_allowed(data.subrange(20, 4 * (data[0] % 16))),
        (256 * data[6] + data[7]) % 0x4000 == 0,
        data[8] > 0,
        spec_unicast(IpAddress::V4(be32(data, 12) as u32)),
        spec_unicast(IpAddress::V4(be32(data, 16) as u32)),
    ensures
        spec_parse(data) is Some,
{
}

/// A whole IPv6 packet between hosts is accepted: one that is all there, has a hop left,
/// and whose chain of extension headers leads to a transport.
pub proof fn law_sound_ipv6_packets_are_accepted(data: Seq<u8>)
    requires
        data.len() >= 40,
        data[0] / 16 == 6,
        40 + 256 * data[4] + data[5] <= data.len(),
        extension_chain(data[6], data.subrange(40, 40 + 256 * data[4] + data[5]), 0, 0) is Some,
        data[7] > 0,
        spec_unicast(IpAddress::V6(be128(data, 8) as u128)),
        spec_unicast(IpAddress::V6(be128(data, 24) as u128)),
    ensures
        spec_parse(data) is Some,
{
}

/// The transport header that offloading needs is where validation finds the payload, and
/// there is none for a fragment. It lies within the packet.
pub proof fn law_offload_finds_the_transport(data: Seq<u8>)
    ensures
        transport_at(data) matches Some((_, start)) ==> 20 <= start <= data.len(),
        spec_parse(data) matches Some(p) ==> match p.fragment {
            Some(_) => transport_at(data) is None,
            None => transport_at(data) matches Some((protocol, start)) && protocol == p.ip.protocol
                && start + p.payload.len() <= data.len() && data.subrange(
                start,
                start + p.payload.len(),
            ) == p.payload,
        },
{
    if data.len() > 0 && data[0] / 16 == 4 {
        law_ipv4_packets_are_what_their_bytes_say(data);
    }
    if data.len() > 0 && data[0] / 16 == 6 {
        law_ipv6_packets_are_what_their_bytes_say(data);
    }
    match ipv6_fields(data) {
        Some(f) => {
            law_chains_lead_to_a_transport(
                f.next_header,
                data.subrange(40, 40 + f.payload_len),
                0,
                0,
            );
        },
        None => {},
    }
}

/// A datagram is taken from the bytes that its own length field covers, and belongs to
/// the flow of its addresses and ports. Its checksum has to balance, unless the receiver
/// vouches for it; IPv4 alone allows a datagram without one. Without a destination port it
/// is nobody's.
pub proof fn law_datagrams_are_checked(ip: IpHeader, s: Seq<u8>, verified: bool)
    ensures
        ({
            let len = 256 * s[4] + s[5];
            let checksum = 256 * s[6] + s[7];
            let sum = pseudo_sum(ip.source, ip.destination, 17, len) + word_sum(s.take(len));
            let found = udp_datagram(ip, s, verified);
            &&& found is Some <==> {
                &&& s.len() >= 8
                &&& 8 <= len <= s.len()
                &&& 256 * s[2] + s[3] != 0
                &&& checksum == 0 ==> ip.source is V4
                &&& checksum != 0 && !verified ==> balanced(sum)
            }
            &&& found matches Some((flow, payload)) ==> {
                &&& flow.source == (SocketAddress { ip: ip.source, port: be16(s, 0) as u16 })
                &&& flow.destination == (SocketAddress {
                    ip: ip.destination,
                    port: be16(s, 2) as u16,
                })
                &&& payload == s.subrange(8, len)
            }
        }),
{
}

/// A segment is all that follows its header, and belongs to the flow of its addresses and
/// ports. Its checksum has to balance, unless the receiver vouches for it.
pub proof fn law_segments_are_checked(ip: IpHeader, s: Seq<u8>, verified: bool)
    ensures
        ({
            let sum = pseudo_sum(ip.source, ip.destination, 6, s.len() as int) + word_sum(s);
            let found = tcp_segment(ip, s, verified);
            &&& found is Some <==> tcp_fields(s) is Some && (verified || balanced(sum))
            &&& found matches Some((flow, f, payload)) ==> {
                &&& Some(f) == tcp_fields(s)
                &&& flow.source == (SocketAddress { ip: ip.source, port: be16(s, 0) as u16 })
                &&& flow.destination == (SocketAddress {
                    ip: ip.destination,
                    port: be16(s, 2) as u16,
                })
                &&& payload == s.skip(4 * (s[12] / 16))
            }
        }),
{
    law_tcp_headers_read_as_they_stand(s);
}

/// A packet that is no fragment is routed by the flow that its datagram or segment is then
/// found to belong to, so that a flow has one worker. Other protocols have no route.
pub proof fn law_routes_follow_the_flow(p: ParsedView, verified: bool)
    requires
        p.fragment is None,
    ensures
        p.ip.protocol == 17 ==> (udp_datagram(p.ip, p.payload, verified) matches Some((flow, _))
            ==> spec_route(p) == Some(RouteKey::Flow(17, flow))),
        p.ip.protocol == 6 ==> (tcp_segment(p.ip, p.payload, verified) matches Some((flow, _, _))
            ==> spec_route(p) == Some(RouteKey::Flow(6, flow))),
        spec_route(p) is Some <==> (p.ip.protocol == 6 || p.ip.protocol == 17) && p.payload.len()
            >= 4 && (p.payload[2] != 0 || p.payload[3] != 0),
{
    law_datagrams_are_checked(p.ip, p.payload, verified);
    law_segments_are_checked(p.ip, p.payload, verified);
    law_tcp_headers_read_as_they_stand(p.payload);
}

/// Fragments go together exactly when they have the same ends and identification, and in
/// IPv4 the same protocol; they are routed together, whatever else they carry. Only the
/// first of them, at offset zero, tells the flow.
pub proof fn law_fragments_go_together(p: ParsedView, q: ParsedView)
    requires
        p.fragment is Some,
        q.fragment is Some,
    ensures
        spec_route(p) == spec_route(q) <==> {
            &&& p.ip.source == q.ip.source
            &&& p.ip.destination == q.ip.destination
            &&& (p.fragment->0).id == (q.fragment->0).id
            &&& p.ip.source is V4 ==> p.ip.protocol == q.ip.protocol
        },
        spec_route(p) == Some(RouteKey::Fragment(p.key())),
        (p.fragment->0).offset == 0 ==> spec_first_route(p) == spec_route(
            ParsedView { fragment: None, ..p },
        ),
        (p.fragment->0).offset != 0 ==> spec_first_route(p) is None,
{
}

} // verus!
