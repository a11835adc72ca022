//! Plain values for what the wire carries, and the outside parsers and emitters
//! that read and write them.
use crate::checksum::{balanced, be128, be16, be32, complement, word_sum};
use smoltcp::wire::{TcpControl as Control, TcpPacket, TcpRepr, TcpSeqNumber, TcpTimestampRepr};
use vstd::prelude::*;

verus! {

/// Protocol numbers that the endpoint tells apart.
pub const HOP_BY_HOP: u8 = 0;

pub const TCP: u8 = 6;

pub const UDP: u8 = 17;

pub const IPV6_FRAGMENT: u8 = 44;

pub const ICMPV6: u8 = 58;

pub const IPV6_OPTIONS: u8 = 60;

/// The hop limit of every packet that the endpoint builds.
pub const HOP_LIMIT: u8 = 64;

/// An IP address as the number that its octets spell in network order.
#[derive(Clone, Copy, Debug, PartialEq, Eq, Hash, Structural)]
pub enum IpAddress {
    V4(u32),
    V6(u128),
}

impl IpAddress {
    pub fn is_ipv4(&self) -> (r: bool)
        ensures
            r == (*self is V4),
    {
        matches!(self, IpAddress::V4(_))
    }
}

/// A transport endpoint: an address and a port.
#[derive(Clone, Copy, Debug, PartialEq, Eq, Hash, Structural)]
pub struct SocketAddress {
    pub ip: IpAddress,
    pub port: u16,
}

impl SocketAddress {
    pub fn new(ip: IpAddress, port: u16) -> (r: SocketAddress)
        ensures
            r == (SocketAddress { ip, port }),
    {
        SocketAddress { ip, port }
    }

    pub fn is_ipv4(&self) -> (r: bool)
        ensures
            r == (self.ip is V4),
    {
        self.ip.is_ipv4()
    }
}

/// What an IP header says of its packet: the addresses, the transport protocol,
/// the length of what follows the header, and the hop limit.
#[derive(Clone, Copy, Debug, PartialEq, Eq, Structural)]
pub struct IpHeader {
    pub source: IpAddress,
    pub destination: IpAddress,
    pub protocol: u8,
    pub payload_len: usize,
    pub hop_limit: u8,
}

impl IpHeader {
    /// Both addresses are of one family.
    pub open spec fn wf(self) -> bool {
        self.source is V4 == self.destination is V4
    }

    /// The length of the header that carries it.
    pub open spec fn spec_header_len(self) -> int {
        if self.source is V4 {
            20
        } else {
            40
        }
    }

    /// The most that can follow the header.
    pub open spec fn max_payload(self) -> int {
        if self.source is V4 {
            65515
        } else {
            65535
        }
    }

    pub fn header_len(&self) -> (r: usize)
        ensures
            r == self.spec_header_len(),
    {
        if self.source.is_ipv4() {
            20
        } else {
            40
        }
    }
}

/// The fields of a valid IPv4 header.
#[derive(Clone, Copy, Debug, PartialEq, Eq, Structural)]
pub struct Ipv4Fields {
    pub source: u32,
    pub destination: u32,
    pub protocol: u8,
    pub hop_limit: u8,
    pub header_len: usize,
    pub total_len: usize,
    pub id: u16,
    pub more: bool,
    pub offset: u16,
}

/// The length that an IPv4 header gives itself.
pub open spec fn ipv4_header_len(s: Seq<u8>) -> int {
    (s[0] % 16) * 4
}

/// A whole IPv4 packet with consistent lengths and a valid header checksum.
pub open spec fn ipv4_valid(s: Seq<u8>) -> bool {
    &&& s.len() >= 20
    &&& s[0] / 16 == 4
    &&& 20 <= ipv4_header_len(s) <= be16(s, 2) <= s.len()
    &&& balanced(word_sum(s.take(ipv4_header_len(s))))
}

/// The fields of an IPv4 header, where it is valid.
pub open spec fn ipv4_fields(s: Seq<u8>) -> Option<Ipv4Fields> {
    if ipv4_valid(s) {
        Some(
            Ipv4Fields {
                source: be32(s, 12) as u32,
                destination: be32(s, 16) as u32,
                protocol: s[9],
                hop_limit: s[8],
                header_len: ipv4_header_len(s) as usize,
                total_len: be16(s, 2) as usize,
                id: be16(s, 4) as u16,
                more: s[6] / 32 % 2 == 1,
                offset: (be16(s, 6) % 8192 * 8) as u16,
            },
        )
    } else {
        None
    }
}

/// `smoltcp::wire::Ipv4Packet::new_checked` and `Ipv4Repr::parse`: the fields of
/// the header, when the lengths agree, the version is 4 and the header checksum
/// is valid.
#[verifier::external_body]
pub(crate) fn parse_ipv4(data: &[u8]) -> (r: Option<Ipv4Fields>)
    ensures
        r == ipv4_fields(data@),
{
    let packet = smoltcp::wire::Ipv4Packet::new_checked(data).ok()?;
    let caps = smoltcp::phy::ChecksumCapabilities::default();
    let repr = smoltcp::wire::Ipv4Repr::parse(&packet, &caps).ok()?;
    Some(Ipv4Fields {
        source: repr.src_addr.into(),
        destination: repr.dst_addr.into(),
        protocol: repr.next_header.into(),
        hop_limit: repr.hop_limit,
        header_len: packet.header_len().into(),
        total_len: packet.total_len().into(),
        id: packet.ident(),
        more: packet.more_frags(),
        offset: packet.frag_offset(),
    })
}

/// The fields of a valid IPv6 header.
#[derive(Clone, Copy, Debug, PartialEq, Eq, Structural)]
pub struct Ipv6Fields {
    pub source: u128,
    pub destination: u128,
    pub next_header: u8,
    pub hop_limit: u8,
    pub payload_len: usize,
}

/// The fields of an IPv6 header, where the whole packet is present.
pub open spec fn ipv6_fields(s: Seq<u8>) -> Option<Ipv6Fields> {
    if s.len() >= 40 && s[0] / 16 == 6 && s.len() >= 40 + be16(s, 4) {
        Some(
            Ipv6Fields {
                source: be128(s, 8) as u128,
                destination: be128(s, 24) as u128,
                next_header: s[6],
                hop_limit: s[7],
                payload_len: be16(s, 4) as usize,
            },
        )
    } else {
        None
    }
}

/// `smoltcp::wire::Ipv6Packet::new_checked` and `Ipv6Repr::parse`: the fields of
/// the header, when the version is 6 and the whole payload is present.
#[verifier::external_body]
pub(crate) fn parse_ipv6(data: &[u8]) -> (r: Option<Ipv6Fields>)
    ensures
        r == ipv6_fields(data@),
{
    let packet = smoltcp::wire::Ipv6Packet::new_checked(data).ok()?;
    let repr = smoltcp::wire::Ipv6Repr::parse(&packet).ok()?;
    Some(Ipv6Fields {
        source: repr.src_addr.into(),
        destination: repr.dst_addr.into(),
        next_header: repr.next_header.into(),
        hop_limit: repr.hop_limit,
        payload_len: repr.payload_len,
    })
}

/// One option of an IPv6 options header: how many bytes it takes, and its type
/// where the parser does not know it.
#[derive(Clone, Copy, Debug, PartialEq, Eq, Structural)]
pub struct Ipv6OptionFields {
    pub len: usize,
    pub unknown: Option<u8>,
}

/// The option at the start of `s`, where it is complete. Padding and router
/// alerts are known; a router alert carries two bytes.
pub open spec fn ipv6_option(s: Seq<u8>) -> Option<Ipv6OptionFields> {
    if s.len() == 0 {
        None
    } else if s[0] == 0 {
        Some(Ipv6OptionFields { len: 1, unknown: None })
    } else if s.len() < 2 || s.len() < s[1] + 2 || (s[0] == 5 && s[1] != 2) {
        None
    } else {
        let unknown = if s[0] == 1 || s[0] == 5 {
            None
        } else {
            Some(s[0])
        };
        Some(Ipv6OptionFields { len: (s[1] + 2) as usize, unknown })
    }
}

/// `smoltcp::wire::Ipv6Option::new_checked`, `Ipv6OptionRepr::parse` and
/// `buffer_len`: the option at the start of the bytes.
#[verifier::external_body]
pub(crate) fn parse_ipv6_option(data: &[u8]) -> (r: Option<Ipv6OptionFields>)
    ensures
        r == ipv6_option(data@),
{
    let option = smoltcp::wire::Ipv6Option::new_checked(data).ok()?;
    let repr = smoltcp::wire::Ipv6OptionRepr::parse(&option).ok()?;
    let unknown = match repr {
        smoltcp::wire::Ipv6OptionRepr::Unknown { type_, .. } => Some(type_.into()),
        _ => None,
    };
    Some(Ipv6OptionFields { len: repr.buffer_len(), unknown })
}

/// The fields of an IPv6 fragment header after its first two bytes; the offset
/// counts units of eight bytes.
#[derive(Clone, Copy, Debug, PartialEq, Eq, Structural)]
pub struct Ipv6FragmentFields {
    pub offset: u16,
    pub more: bool,
    pub id: u32,
}

/// The fragment fields that the six bytes at the start of `s` spell.
pub open spec fn ipv6_fragment(s: Seq<u8>) -> Option<Ipv6FragmentFields> {
    if s.len() >= 6 {
        Some(
            Ipv6FragmentFields {
                offset: (be16(s, 0) / 8) as u16,
                more: s[1] % 2 == 1,
                id: be32(s, 2) as u32,
            },
        )
    } else {
        None
    }
}

/// `smoltcp::wire::Ipv6FragmentHeader::new_checked` and
/// `Ipv6FragmentRepr::parse`: the three fields of six bytes.
#[verifier::external_body]
pub(crate) fn parse_ipv6_fragment(data: &[u8]) -> (r: Option<Ipv6FragmentFields>)
    ensures
        r == ipv6_fragment(data@),
{
    let header = smoltcp::wire::Ipv6FragmentHeader::new_checked(data).ok()?;
    let repr = smoltcp::wire::Ipv6FragmentRepr::parse(&header).ok()?;
    Some(Ipv6FragmentFields { offset: repr.frag_offset, more: repr.more_frags, id: repr.ident })
}

/// The fields of a UDP header.
#[derive(Clone, Copy, Debug, PartialEq, Eq, Structural)]
pub struct UdpFields {
    pub source_port: u16,
    pub destination_port: u16,
    pub len: usize,
    pub checksum: u16,
}

/// The fields of a UDP header whose length field covers the header and stays
/// within the bytes.
pub open spec fn udp_fields(s: Seq<u8>) -> Option<UdpFields> {
    if s.len() >= 8 && 8 <= be16(s, 4) <= s.len() {
        Some(
            UdpFields {
                source_port: be16(s, 0) as u16,
                destination_port: be16(s, 2) as u16,
                len: be16(s, 4) as usize,
                checksum: be16(s, 6) as u16,
            },
        )
    } else {
        None
    }
}

/// `smoltcp::wire::UdpPacket::new_checked` and its accessors.
#[verifier::external_body]
pub(crate) fn parse_udp(data: &[u8]) -> (r: Option<UdpFields>)
    ensures
        r == udp_fields(data@),
{
    let packet = smoltcp::wire::UdpPacket::new_checked(data).ok()?;
    Some(UdpFields {
        source_port: packet.src_port(),
        destination_port: packet.dst_port(),
        len: packet.len().into(),
        checksum: packet.checksum(),
    })
}

/// What a TCP segment asks for besides carrying data.
#[derive(Clone, Copy, Debug, PartialEq, Eq, Structural)]
pub enum TcpControl {
    Plain,
    Psh,
    Syn,
    Fin,
    Rst,
}

/// The options of a TCP segment.
#[derive(Clone, Copy, Debug, PartialEq, Eq)]
pub struct TcpOptions {
    pub max_seg_size: Option<u16>,
    pub window_scale: Option<u8>,
    pub sack_permitted: bool,
    pub sack_ranges: [Option<(u32, u32)>; 3],
    pub timestamp: Option<(u32, u32)>,
}

impl TcpOptions {
    /// No option is given.
    pub open spec fn is_empty(self) -> bool {
        &&& self.max_seg_size is None
        &&& self.window_scale is None
        &&& !self.sack_permitted
        &&& self.sack_ranges@[0] is None
        &&& self.sack_ranges@[1] is None
        &&& self.sack_ranges@[2] is None
        &&& self.timestamp is None
    }

    /// Whether the options are read back as they were written. A larger window
    /// scale is read as fourteen; ranges are written without gaps, and only by a
    /// segment that acknowledges and does not negotiate them.
    pub open spec fn readable(self, acknowledges: bool) -> bool {
        let ranges = self.sack_ranges@;
        &&& self.window_scale matches Some(scale) ==> scale <= 14
        &&& ranges[0] is Some ==> acknowledges && !self.sack_permitted
        &&& ranges[1] is Some ==> ranges[0] is Some
        &&& ranges[2] is Some ==> ranges[1] is Some
    }

    pub fn none() -> (r: TcpOptions)
        ensures
            r.is_empty(),
    {
        TcpOptions {
            max_seg_size: None,
            window_scale: None,
            sack_permitted: false,
            sack_ranges: [None, None, None],
            timestamp: None,
        }
    }

    /// The length of a header with these options: a multiple of four.
    pub open spec fn spec_header_len(self) -> int {
        let ranges = (if self.sack_ranges@[0] is Some {
            8int
        } else {
            0
        }) + (if self.sack_ranges@[1] is Some {
            8int
        } else {
            0
        }) + (if self.sack_ranges@[2] is Some {
            8int
        } else {
            0
        });
        let len = 20 + (if self.max_seg_size is Some {
            4int
        } else {
            0
        }) + (if self.window_scale is Some {
            3int
        } else {
            0
        }) + (if self.sack_permitted {
            2int
        } else {
            0
        }) + (if self.timestamp is Some {
            10int
        } else {
            0
        }) + (if ranges > 0 {
            ranges + 2
        } else {
            0
        });
        (len + 3) / 4 * 4
    }

    /// The length of a header with these options.
    pub fn header_len(&self) -> (r: usize)
        ensures
            r == self.spec_header_len(),
    {
        let mut len: usize = 20;
        if self.max_seg_size.is_some() {
            len = len + 4;
        }
        if self.window_scale.is_some() {
            len = len + 3;
        }
        if self.sack_permitted {
            len = len + 2;
        }
        if self.timestamp.is_some() {
            len = len + 10;
        }
        let mut ranges: usize = 0;
        if self.sack_ranges[0].is_some() {
            ranges = ranges + 8;
        }
        if self.sack_ranges[1].is_some() {
            ranges = ranges + 8;
        }
        if self.sack_ranges[2].is_some() {
            ranges = ranges + 8;
        }
        if ranges > 0 {
            len = len + ranges + 2;
        }
        (len + 3) / 4 * 4
    }
}

/// The header of a TCP segment.
#[derive(Clone, Copy, Debug, PartialEq, Eq)]
pub struct TcpFields {
    pub source_port: u16,
    pub destination_port: u16,
    pub control: TcpControl,
    pub seq_number: u32,
    pub ack_number: Option<u32>,
    pub window_len: u16,
    pub options: TcpOptions,
    pub header_len: usize,
}

/// The length that a TCP header gives itself.
pub open spec fn tcp_header_len(s: Seq<u8>) -> int {
    (s[12] / 16) * 4
}

/// A TCP header, with its options, that lies within the bytes.
pub open spec fn tcp_complete(s: Seq<u8>) -> bool {
    s.len() >= 20 && 20 <= tcp_header_len(s) <= s.len()
}

/// What the SYN, FIN, RST and PSH flags ask for together; at most one of the
/// first three may be set.
pub open spec fn tcp_control(flags: u8) -> Option<TcpControl> {
    let fin = flags % 2 == 1;
    let syn = flags / 2 % 2 == 1;
    let rst = flags / 4 % 2 == 1;
    let psh = flags / 8 % 2 == 1;
    if syn && !fin && !rst {
        Some(TcpControl::Syn)
    } else if fin && !syn && !rst {
        Some(TcpControl::Fin)
    } else if rst && !syn && !fin {
        Some(TcpControl::Rst)
    } else if syn || fin || rst {
        None
    } else if psh {
        Some(TcpControl::Psh)
    } else {
        Some(TcpControl::Plain)
    }
}

/// A complete TCP header with both ports and one thing asked for.
pub open spec fn tcp_acceptable(s: Seq<u8>) -> bool {
    tcp_complete(s) && be16(s, 0) != 0 && be16(s, 2) != 0 && tcp_control(s[13]) is Some
}

/// What `smoltcp::wire::TcpRepr::parse` reads from the option bytes of a header,
/// or `None` where it rejects them.
pub uninterp spec fn tcp_options(options: Seq<u8>) -> Option<TcpOptions>;

/// The header of a TCP segment, checksum aside.
pub open spec fn tcp_fields(s: Seq<u8>) -> Option<TcpFields> {
    if !tcp_acceptable(s) {
        None
    } else {
        match tcp_options(s.subrange(20, tcp_header_len(s))) {
            Some(options) => Some(
                TcpFields {
                    source_port: be16(s, 0) as u16,
                    destination_port: be16(s, 2) as u16,
                    control: tcp_control(s[13])->0,
                    seq_number: be32(s, 4) as u32,
                    ack_number: if s[13] / 16 % 2 == 1 {
                        Some(be32(s, 8) as u32)
                    } else {
                        None
                    },
                    window_len: be16(s, 14) as u16,
                    options,
                    header_len: tcp_header_len(s) as usize,
                },
            ),
            None => None,
        }
    }
}

/// `smoltcp::wire::TcpPacket::new_checked` and `TcpRepr::parse` without its
/// checksum test, so that the addresses play no part: the options of the
/// header, when the header is acceptable and they are too. A header of twenty
/// bytes has no options.
#[verifier::external_body]
pub(crate) fn parse_tcp_options(data: &[u8]) -> (r: Option<TcpOptions>)
    ensures
        r == (if tcp_acceptable(data@) {
            tcp_options(data@.subrange(20, tcp_header_len(data@)))
        } else {
            None
        }),
        tcp_acceptable(data@) && tcp_header_len(data@) == 20 ==> r is Some && r->0.is_empty(),
{
    let packet = smoltcp::wire::TcpPacket::new_checked(data).ok()?;
    let caps = smoltcp::phy::ChecksumCapabilities::ignored();
    let address = smoltcp::wire::IpAddress::v4(0, 0, 0, 0);
    let repr = smoltcp::wire::TcpRepr::parse(&packet, &address, &address, &caps).ok()?;
    Some(TcpOptions {
        max_seg_size: repr.max_seg_size,
        window_scale: repr.window_scale,
        sack_permitted: repr.sack_permitted,
        sack_ranges: repr.sack_ranges,
        timestamp: repr.timestamp.map(|t| (t.tsval, t.tsecr)),
    })
}

/// Reads the big-endian word at a position.
pub fn read_be16(data: &[u8], at: usize) -> (r: u16)
    requires
        at + 2 <= data@.len(),
    ensures
        r == be16(data@, at as int),
{
    data[at] as u16 * 256 + data[at + 1] as u16
}

/// Reads the big-endian double word at a position.
pub fn read_be32(data: &[u8], at: usize) -> (r: u32)
    requires
        at + 4 <= data@.len(),
    ensures
        r == be32(data@, at as int),
{
    assert(data.len() == data@.len());
    read_be16(data, at) as u32 * 0x1_0000 + read_be16(data, at + 2) as u32
}

/// Reads what a segment asks for from its flags.
pub fn control_of(flags: u8) -> (r: Option<TcpControl>)
    ensures
        r == tcp_control(flags),
{
    let fin: bool = flags % 2 == 1;
    let syn: bool = flags / 2 % 2 == 1;
    let rst: bool = flags / 4 % 2 == 1;
    let psh: bool = flags / 8 % 2 == 1;
    match (syn, fin, rst, psh) {
        (false, false, false, false) => Some(TcpControl::Plain),
        (false, false, false, true) => Some(TcpControl::Psh),
        (true, false, false, _) => Some(TcpControl::Syn),
        (false, true, false, _) => Some(TcpControl::Fin),
        (false, false, true, _) => Some(TcpControl::Rst),
        _ => None,
    }
}

/// Whether the bytes start with a complete TCP header, options and all.
pub fn complete_tcp_header(data: &[u8]) -> (r: bool)
    ensures
        r == tcp_complete(data@),
{
    if data.len() < 20 {
        return false;
    }
    let len: usize = (data[12] / 16) as usize * 4;
    20 <= len && len <= data.len()
}

/// Reads a TCP header, checksum aside.
pub fn parse_tcp(data: &[u8]) -> (r: Option<TcpFields>)
    ensures
        r == tcp_fields(data@),
{
    let options = parse_tcp_options(data)?;
    let control = control_of(data[13])?;
    Some(
        TcpFields {
            source_port: read_be16(data, 0),
            destination_port: read_be16(data, 2),
            control,
            seq_number: read_be32(data, 4),
            ack_number: if data[13] / 16 % 2 == 1 {
                Some(read_be32(data, 8))
            } else {
                None
            },
            window_len: read_be16(data, 14),
            options,
            header_len: (data[12] / 16) as usize * 4,
        },
    )
}

/// The bytes of an IPv4 header without options; `flags` is the word that holds
/// the fragment flags and offset.
pub open spec fn is_ipv4_header(
    s: Seq<u8>,
    source: u32,
    destination: u32,
    protocol: u8,
    payload_len: int,
    hop_limit: u8,
    id: int,
    flags: int,
) -> bool {
    &&& s.len() == 20
    &&& s[0] == 0x45
    &&& s[1] == 0
    &&& be16(s, 2) == 20 + payload_len
    &&& be16(s, 4) == id
    &&& be16(s, 6) == flags
    &&& s[8] == hop_limit
    &&& s[9] == protocol
    &&& be16(s, 10) == complement(word_sum(s.take(10)) + word_sum(s.skip(12)))
    &&& be32(s, 12) == source
    &&& be32(s, 16) == destination
}

/// `smoltcp::wire::Ipv4Repr::emit` into twenty zero bytes: the header of a
/// packet that must not be fragmented, with its checksum. The length field has
/// 16 bits.
#[verifier::external_body]
pub(crate) fn emit_ipv4(
    source: u32,
    destination: u32,
    protocol: u8,
    payload_len: usize,
    hop_limit: u8,
) -> (r: Vec<u8>)
    requires
        payload_len <= 65515,
    ensures
        is_ipv4_header(r@, source, destination, protocol, payload_len as int, hop_limit, 0, 0x4000),
{
    let repr = smoltcp::wire::Ipv4Repr {
        src_addr: source.into(),
        dst_addr: destination.into(),
        next_header: protocol.into(),
        payload_len,
        hop_limit,
    };
    let mut bytes = vec![0u8; 20];
    let caps = smoltcp::phy::ChecksumCapabilities::default();
    repr.emit(&mut smoltcp::wire::Ipv4Packet::new_unchecked(&mut bytes[..]), &caps);
    bytes
}

/// The setters of `smoltcp::wire::Ipv4Packet` for a fragment, and its
/// `fill_checksum`: the identification, the more-fragments flag and the offset
/// are written, the don't-fragment flag is cleared, and all else but the checksum
/// stays.
#[verifier::external_body]
pub(crate) fn mark_ipv4_fragment(header: Vec<u8>, id: u16, more: bool, offset: u16) -> (r: Vec<u8>)
    requires
        header@.len() == 20,
        header@[0] == 0x45,
        header@[6] < 128,
        offset % 8 == 0,
    ensures
        r@.len() == 20,
        r@.take(4) == header@.take(4),
        be16(r@, 4) == id,
        be16(r@, 6) == (if more {
            0x2000int
        } else {
            0
        }) + offset / 8,
        r@.subrange(8, 10) == header@.subrange(8, 10),
        be16(r@, 10) == complement(word_sum(r@.take(10)) + word_sum(r@.skip(12))),
        r@.skip(12) == header@.skip(12),
{
    let mut header = header;
    let mut packet = smoltcp::wire::Ipv4Packet::new_unchecked(&mut header[..]);
    packet.set_ident(id);
    packet.set_dont_frag(false);
    packet.set_more_frags(more);
    packet.set_frag_offset(offset);
    packet.fill_checksum();
    header
}

/// The bytes of an IPv6 header with no traffic class and no flow label.
pub open spec fn is_ipv6_header(
    s: Seq<u8>,
    source: u128,
    destination: u128,
    next_header: u8,
    payload_len: int,
    hop_limit: u8,
) -> bool {
    &&& s.len() == 40
    &&& s[0] == 0x60
    &&& s[1] == 0
    &&& s[2] == 0
    &&& s[3] == 0
    &&& be16(s, 4) == payload_len
    &&& s[6] == next_header
    &&& s[7] == hop_limit
    &&& be128(s, 8) == source
    &&& be128(s, 24) == destination
}

/// `smoltcp::wire::Ipv6Repr::emit` into forty zero bytes. The length field has
/// 16 bits.
#[verifier::external_body]
pub(crate) fn emit_ipv6(
    source: u128,
    destination: u128,
    next_header: u8,
    payload_len: usize,
    hop_limit: u8,
) -> (r: Vec<u8>)
    requires
        payload_len <= 65535,
    ensures
        is_ipv6_header(r@, source, destination, next_header, payload_len as int, hop_limit),
{
    let repr = smoltcp::wire::Ipv6Repr {
        src_addr: source.into(),
        dst_addr: destination.into(),
        next_header: next_header.into(),
        payload_len,
        hop_limit,
    };
    let mut bytes = vec![0u8; 40];
    repr.emit(&mut smoltcp::wire::Ipv6Packet::new_unchecked(&mut bytes[..]));
    bytes
}

/// The six bytes of a fragment header after its first two.
pub open spec fn is_ipv6_fragment(s: Seq<u8>, offset: int, more: bool, id: int) -> bool {
    &&& s.len() == 6
    &&& be16(s, 0) == offset * 8 + (if more {
        1int
    } else {
        0
    })
    &&& be32(s, 2) == id
}

/// `smoltcp::wire::Ipv6FragmentRepr::emit` into six zero bytes; the offset field
/// has 13 bits.
#[verifier::external_body]
pub(crate) fn emit_ipv6_fragment(offset: u16, more: bool, id: u32) -> (r: Vec<u8>)
    requires
        offset <= 0x1fff,
    ensures
        is_ipv6_fragment(r@, offset as int, more, id as int),
{
    let repr = smoltcp::wire::Ipv6FragmentRepr { frag_offset: offset, more_frags: more, ident: id };
    let mut bytes = vec![0u8; 6];
    repr.emit(&mut smoltcp::wire::Ipv6FragmentHeader::new_unchecked(&mut bytes[..]));
    bytes
}

/// The eight bytes of a UDP header.
pub open spec fn is_udp_header(
    s: Seq<u8>,
    source_port: int,
    destination_port: int,
    len: int,
    checksum: int,
) -> bool {
    &&& s.len() == 8
    &&& be16(s, 0) == source_port
    &&& be16(s, 2) == destination_port
    &&& be16(s, 4) == len
    &&& be16(s, 6) == checksum
}

/// The setters of `smoltcp::wire::UdpPacket` on eight bytes: four fields in
/// network order.
#[verifier::external_body]
pub(crate) fn emit_udp(source_port: u16, destination_port: u16, len: u16, checksum: u16) -> (r: Vec<
    u8,
>)
    ensures
        is_udp_header(
            r@,
            source_port as int,
            destination_port as int,
            len as int,
            checksum as int,
        ),
{
    let mut bytes = vec![0u8; 8];
    let mut packet = smoltcp::wire::UdpPacket::new_unchecked(&mut bytes[..]);
    packet.set_src_port(source_port);
    packet.set_dst_port(destination_port);
    packet.set_len(len);
    packet.set_checksum(checksum);
    bytes
}

/// The option bytes that `smoltcp::wire::TcpRepr::emit` writes, padding among
/// them; ranges of selective acknowledgments go with an acknowledgment only.
pub uninterp spec fn tcp_option_bytes(options: TcpOptions, acknowledges: bool) -> Seq<u8>;

/// The flags of a segment.
pub open spec fn tcp_flags(control: TcpControl, acknowledges: bool) -> int {
    (match control {
        TcpControl::Plain => 0int,
        TcpControl::Fin => 1,
        TcpControl::Syn => 2,
        TcpControl::Rst => 4,
        TcpControl::Psh => 8,
    }) + (if acknowledges {
        16int
    } else {
        0
    })
}

/// The bytes of a TCP header whose checksum field is zero.
pub open spec fn is_tcp_header(s: Seq<u8>, f: TcpFields) -> bool {
    &&& s.len() == f.options.spec_header_len()
    &&& be16(s, 0) == f.source_port
    &&& be16(s, 2) == f.destination_port
    &&& be32(s, 4) == f.seq_number
    &&& be32(s, 8) == match f.ack_number {
        Some(ack) => ack as int,
        None => 0,
    }
    &&& s[12] == f.options.spec_header_len() * 4
    &&& s[13] == tcp_flags(f.control, f.ack_number is Some)
    &&& be16(s, 14) == f.window_len
    &&& be16(s, 16) == 0
    &&& be16(s, 18) == 0
    &&& s.skip(20) == tcp_option_bytes(f.options, f.ack_number is Some)
    &&& f.options.readable(f.ack_number is Some) ==> tcp_options(s.skip(20)) == Some(f.options)
}

/// `smoltcp::wire::TcpRepr::emit` for a segment whose fixed fields are zero, but
/// for its length and its acknowledgment flag, without payload and without
/// checksum. The length field counts words in four bits. `TcpRepr::parse` reads the
/// options back from the bytes behind the first twenty, within the limits that
/// `TcpOptions::readable` gives.
#[verifier::external_body]
pub(crate) fn emit_tcp_options(o: &TcpOptions, acknowledges: bool) -> (r: Vec<u8>)
    requires
        o.spec_header_len() <= 60,
    ensures
        r@.len() == o.spec_header_len(),
        forall|i: int| 0 <= i < 20 && i != 12 && i != 13 ==> #[trigger] r@[i] == 0,
        r@[12] == o.spec_header_len() * 4,
        r@[13] == tcp_flags(TcpControl::Plain, acknowledges),
        r@.skip(20) == tcp_option_bytes(*o, acknowledges),
        o.readable(acknowledges) ==> tcp_options(r@.skip(20)) == Some(*o),
{
    let repr = TcpRepr {
        src_port: 0, dst_port: 0, control: Control::None, window_len: 0, payload: &[],
        seq_number: TcpSeqNumber(0),
        ack_number: acknowledges.then_some(TcpSeqNumber(0)),
        window_scale: o.window_scale,
        max_seg_size: o.max_seg_size,
        sack_permitted: o.sack_permitted,
        sack_ranges: o.sack_ranges,
        timestamp: o.timestamp.map(|t| TcpTimestampRepr::new(t.0, t.1)),
    };
    let (mut bytes, none) = (vec![0u8; repr.header_len()], smoltcp::wire::IpAddress::v4(0, 0, 0, 0));
    let caps = smoltcp::phy::ChecksumCapabilities::ignored();
    repr.emit(&mut TcpPacket::new_unchecked(&mut bytes[..]), &none, &none, &caps);
    bytes
}

/// Writes a word at a position.
fn put_be16(bytes: &mut Vec<u8>, at: usize, value: u16)
    requires
        at + 2 <= old(bytes)@.len() <= 60,
    ensures
        final(bytes)@ == old(bytes)@.update(at as int, (value / 256) as u8).update(
            at + 1,
            (value % 256) as u8,
        ),
        be16(final(bytes)@, at as int) == value,
{
    bytes[at] = (value / 256) as u8;
    bytes[at + 1] = (value % 256) as u8;
}

/// Writes a TCP header with a zero checksum field.
pub fn emit_tcp(f: &TcpFields) -> (r: Vec<u8>)
    requires
        f.options.spec_header_len() <= 60,
    ensures
        is_tcp_header(r@, *f),
{
    let acknowledges: bool = f.ack_number.is_some();
    let ack: u32 = match f.ack_number {
        Some(ack) => ack,
        None => 0,
    };
    let mut bytes = emit_tcp_options(&f.options, acknowledges);
    let ghost options = bytes@.skip(20);
    put_be16(&mut bytes, 0, f.source_port);
    put_be16(&mut bytes, 2, f.destination_port);
    put_be16(&mut bytes, 4, (f.seq_number / 0x1_0000) as u16);
    put_be16(&mut bytes, 6, (f.seq_number % 0x1_0000) as u16);
    put_be16(&mut bytes, 8, (ack / 0x1_0000) as u16);
    put_be16(&mut bytes, 10, (ack % 0x1_0000) as u16);
    put_be16(&mut bytes, 14, f.window_len);
    let control: u8 = match f.control {
        TcpControl::Plain => 0,
        TcpControl::Fin => 1,
        TcpControl::Syn => 2,
        TcpControl::Rst => 4,
        TcpControl::Psh => 8,
    };
    bytes[13] = bytes[13] + control;
    assert(bytes@.skip(20) =~= options);
    bytes
}

/// An IP header as its bytes stand on the wire, without options or extensions.
pub open spec fn is_ip_header(s: Seq<u8>, ip: IpHeader) -> bool {
    match (ip.source, ip.destination) {
        (IpAddress::V4(source), IpAddress::V4(destination)) => is_ipv4_header(
            s,
            source,
            destination,
            ip.protocol,
            ip.payload_len as int,
            ip.hop_limit,
            0,
            0x4000,
        ),
        (IpAddress::V6(source), IpAddress::V6(destination)) => is_ipv6_header(
            s,
            source,
            destination,
            ip.protocol,
            ip.payload_len as int,
            ip.hop_limit,
        ),
        _ => false,
    }
}

/// Writes an IP header. The packet that it heads must fit the 16-bit length of
/// its version.
pub fn emit_ip(ip: &IpHeader) -> (r: Vec<u8>)
    requires
        ip.wf(),
        ip.payload_len <= ip.max_payload(),
    ensures
        is_ip_header(r@, *ip),
        r@.len() == ip.spec_header_len(),
{
    match (ip.source, ip.destination) {
        (IpAddress::V4(source), IpAddress::V4(destination)) => emit_ipv4(
            source,
            destination,
            ip.protocol,
            ip.payload_len,
            ip.hop_limit,
        ),
        (IpAddress::V6(source), IpAddress::V6(destination)) => emit_ipv6(
            source,
            destination,
            ip.protocol,
            ip.payload_len,
            ip.hop_limit,
        ),
        _ => Vec::new(),
    }
}

/// What a segment asks for is read from its flags bit by bit: it is the one of FIN, SYN
/// and RST that is set, whatever the other bits are; PSH counts only where none of them
/// is; and a segment that sets two of them asks for nothing that can be done.
pub proof fn law_flags_are_read_bit_by_bit(flags: u8)
    ensures
        tcp_control(flags) == Some(TcpControl::Fin) <==> flags & 7 == 1,
        tcp_control(flags) == Some(TcpControl::Syn) <==> flags & 7 == 2,
        tcp_control(flags) == Some(TcpControl::Rst) <==> flags & 7 == 4,
        tcp_control(flags) == Some(TcpControl::Psh) <==> flags & 15 == 8,
        tcp_control(flags) == Some(TcpControl::Plain) <==> flags & 15 == 0,
        tcp_control(flags) is None <==> flags & 3 == 3 || flags & 5 == 5 || flags & 6 == 6,
{
    assert(flags & 7 == flags % 8) by (bit_vector);
    assert(flags & 15 == flags % 16) by (bit_vector);
    assert((flags & 3 == 3) == (flags % 2 == 1 && flags / 2 % 2 == 1)) by (bit_vector);
    assert((flags & 5 == 5) == (flags % 2 == 1 && flags / 4 % 2 == 1)) by (bit_vector);
    assert((flags & 6 == 6) == (flags / 2 % 2 == 1 && flags / 4 % 2 == 1)) by (bit_vector);
}

/// The flags that are written are the bits of what the segment asks for and of its
/// acknowledgment, and no others.
pub proof fn law_flags_are_written_bit_by_bit(control: TcpControl, acknowledges: bool)
    ensures
        0 <= tcp_flags(control, acknowledges) < 32,
        tcp_flags(control, acknowledges) / 16 == 1 <==> acknowledges,
        tcp_control(tcp_flags(control, acknowledges) as u8) == Some(control),
{
}

/// A TCP header is read as its bytes stand: ports, numbers and window in network order,
/// the length from the upper half of the thirteenth byte, and the acknowledged number
/// exactly where the ACK bit is set. A header is refused only where it is cut short, lacks
/// a port, asks for two things at once, or has options that cannot be read.
pub proof fn law_tcp_headers_read_as_they_stand(s: Seq<u8>)
    ensures
        tcp_fields(s) matches Some(f) ==> {
            &&& s.len() >= 20
            &&& f.header_len == 4 * (s[12] / 16)
            &&& 20 <= f.header_len <= s.len()
            &&& f.source_port == 256 * s[0] + s[1]
            &&& f.destination_port == 256 * s[2] + s[3]
            &&& f.source_port != 0 && f.destination_port != 0
            &&& f.seq_number == 0x100_0000 * s[4] + 0x1_0000 * s[5] + 0x100 * s[6] + s[7]
            &&& f.ack_number is Some <==> s[13] & 16 == 16
            &&& f.ack_number matches Some(n) ==> n == 0x100_0000 * s[8] + 0x1_0000 * s[9] + 0x100
                * s[10] + s[11]
            &&& f.window_len == 256 * s[14] + s[15]
            &&& f.control is Fin <==> s[13] & 7 == 1
            &&& f.control is Syn <==> s[13] & 7 == 2
            &&& f.control is Rst <==> s[13] & 7 == 4
            &&& f.control is Psh <==> s[13] & 15 == 8
        },
        s.len() >= 20 && 5 <= s[12] / 16 && 4 * (s[12] / 16) <= s.len() && (s[0] != 0 || s[1] != 0)
            && (s[2] != 0 || s[3] != 0) && s[13] & 3 != 3 && s[13] & 5 != 5 && s[13] & 6 != 6
            && tcp_options(s.subrange(20, 4 * (s[12] / 16))) is Some ==> tcp_fields(s) is Some,
{
    let flags = s[13];
    law_flags_are_read_bit_by_bit(flags);
    assert((flags & 16 == 16) == (flags / 16 % 2 == 1)) by (bit_vector);
}

/// A UDP header is read as its bytes stand, and refused only where the datagram that it
/// claims does not lie within the bytes.
pub proof fn law_udp_headers_read_as_they_stand(s: Seq<u8>)
    ensures
        udp_fields(s) matches Some(f) ==> {
            &&& f.source_port == 256 * s[0] + s[1]
            &&& f.destination_port == 256 * s[2] + s[3]
            &&& f.len == 256 * s[4] + s[5]
            &&& f.checksum == 256 * s[6] + s[7]
            &&& 8 <= f.len <= s.len()
        },
        s.len() >= 8 && 8 <= 256 * s[4] + s[5] <= s.len() ==> udp_fields(s) is Some,
{
}

/// An IPv4 header is read as its bytes stand; the three flag bits and the thirteen bits
/// of the offset share a word.
pub proof fn law_ipv4_headers_read_as_they_stand(s: Seq<u8>)
    ensures
        ipv4_fields(s) matches Some(f) ==> {
            &&& s[0] / 16 == 4
            &&& f.header_len == 4 * (s[0] % 16)
            &&& f.total_len == 256 * s[2] + s[3]
            &&& 20 <= f.header_len <= f.total_len <= s.len()
            &&& f.id == 256 * s[4] + s[5]
            &&& f.more <==> s[6] & 0x20 == 0x20
            &&& f.offset == 8 * (256 * (s[6] & 0x1f) + s[7])
            &&& f.hop_limit == s[8]
            &&& f.protocol == s[9]
            &&& f.source == 0x100_0000 * s[12] + 0x1_0000 * s[13] + 0x100 * s[14] + s[15]
            &&& f.destination == 0x100_0000 * s[16] + 0x1_0000 * s[17] + 0x100 * s[18] + s[19]
        },
{
    let flags = s[6];
    assert((flags & 0x20 == 0x20) == (flags / 32 % 2 == 1)) by (bit_vector);
    assert(flags & 0x1f == flags % 32) by (bit_vector);
}

/// The length that options give a TCP header is that of the fixed fields and of each
/// option that is given, filled up to whole words.
pub proof fn law_options_fill_whole_words(options: TcpOptions)
    ensures
        options.spec_header_len() % 4 == 0,
        options.is_empty() ==> options.spec_header_len() == 20,
        options.max_seg_size is Some ==> options.spec_header_len() >= 24,
        options.window_scale is Some ==> options.spec_header_len() >= 24,
        options.sack_permitted ==> options.spec_header_len() >= 24,
        options.timestamp is Some ==> options.spec_header_len() >= 32,
        options.sack_ranges@[0] is Some ==> options.spec_header_len() >= 32,
        20 <= options.spec_header_len() <= 68,
{
}

} // verus!
