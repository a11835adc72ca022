//! TCP segments as IP packets.
use crate::checksum;
use crate::checksum::{
    be16, be32, complement, fold, lemma_address_sum, lemma_complement_balances, lemma_fold_sum,
    lemma_total_2, lemma_word_sum_bounds, lemma_word_sum_split, pseudo_sum, word_sum,
};
use crate::offload::with_word;
use crate::packet::{
    flow_of, spec_parse, spec_unicast, tcp_segment, transport_balanced, Packet, ParsedView,
};
use crate::roundtrip::law_whole_packet_parses;
use crate::shared;
use crate::shared::contents;
use crate::storage::{charge, spec_charge, PacketArena};
use crate::tcp_storage::{joined, Storage};
use crate::transmit::{Transmit, VIEW_BYTES};
use crate::wire::{
    emit_ip, emit_tcp, is_ip_header, is_tcp_header, law_tcp_headers_read_as_they_stand,
    tcp_control, tcp_fields, tcp_flags, tcp_header_len, IpHeader, TcpControl, TcpFields, TcpOptions, HOP_LIMIT, TCP,
};

use vstd::prelude::*;

verus! {

/// The checksum field of a segment whose bytes, with a zero field, are `tcp`. A
/// partial checksum is the folded pseudo-header, which the device completes.
pub open spec fn tcp_checksum(ip: IpHeader, tcp: Seq<u8>, partial: bool) -> int {
    let pseudo = pseudo_sum(ip.source, ip.destination, TCP as int, ip.payload_len as int);
    if partial {
        fold(pseudo)
    } else {
        complement(pseudo + word_sum(tcp))
    }
}

/// A packet that carries a segment: an IP header, a TCP header and the bytes of
/// the segment that stand in the packet itself.
pub open spec fn is_tcp_packet(
    packet: Seq<u8>,
    ip: IpHeader,
    f: TcpFields,
    body: Seq<u8>,
    partial: bool,
) -> bool {
    let at = ip.spec_header_len();
    let len = f.options.spec_header_len();
    let tcp = packet.skip(at);
    let blank = with_word(tcp, 16, 0);
    &&& packet.len() == at + len + body.len()
    &&& is_ip_header(packet.take(at), ip)
    &&& is_tcp_header(blank.take(len), f)
    &&& tcp.skip(len) == body
    &&& be16(tcp, 16) == tcp_checksum(ip, blank, partial)
}

/// Writes a packet that carries a segment.
pub fn encode_segment(ip: &IpHeader, f: &TcpFields, body: &[u8], partial: bool) -> (r: Vec<u8>)
    requires
        ip.wf(),
        ip.payload_len <= ip.max_payload(),
        f.options.spec_header_len() <= 60,
        f.options.spec_header_len() + body@.len() <= ip.payload_len,
        !partial ==> ip.payload_len == f.options.spec_header_len() + body@.len(),
    ensures
        is_tcp_packet(r@, *ip, *f, body@, partial),
{
    let mut packet = emit_ip(ip);
    let ghost first = packet@;
    let mut tcp = emit_tcp(f);
    let ghost header = tcp@;
    tcp.extend_from_slice(body);
    let ghost blank = tcp@;
    let pseudo: u16 = checksum::pseudo_header(
        ip.source,
        ip.destination,
        TCP,
        ip.payload_len as u16,
    );
    let field: u16 = if partial {
        pseudo
    } else {
        let sums = [pseudo, checksum::data(tcp.as_slice())];
        let all: u16 = checksum::combine(&sums);
        proof {
            let a = pseudo_sum(ip.source, ip.destination, TCP as int, ip.payload_len as int);
            let b = word_sum(blank);
            lemma_address_sum(ip.source);
            lemma_address_sum(ip.destination);
            lemma_word_sum_bounds(blank);
            lemma_fold_sum(a, b);
            lemma_fold_sum(fold(a), b);
            lemma_total_2(sums@);
        }
        0xffff - all
    };
    tcp[16] = (field / 256) as u8;
    tcp[17] = (field % 256) as u8;
    let ghost done = tcp@;
    packet.append(&mut tcp);
    proof {
        assert(blank =~= header + body@);
        assert(done =~= with_word(blank, 16, field as int));
        assert(packet@.take(first.len() as int) =~= first);
        assert(packet@.skip(first.len() as int) =~= done);
        assert(with_word(done, 16, 0) =~= blank);
        assert(blank.take(header.len() as int) =~= header);
        assert(done.skip(header.len() as int) =~= body@);
    }
    packet
}

/// What a segment without separate views counts for in a queue.
pub fn emit_cost(ip: &IpHeader) -> (r: usize)
    requires
        ip.payload_len <= 65535,
    ensures
        r == spec_charge(ip.spec_header_len() + ip.payload_len),
{
    charge(ip.header_len() + ip.payload_len)
}

/// A segment for the device, its payload in the packet. A segment size asks the
/// device to cut the payload and to complete the checksums.
pub fn emit(
    arena: &mut PacketArena,
    ip: &IpHeader,
    f: &TcpFields,
    payload: &[u8],
    segment_size: Option<u16>,
) -> (r: Transmit)
    requires
        old(arena).wf(),
        ip.wf(),
        f.options.spec_header_len() <= 60,
        ip.payload_len == f.options.spec_header_len() + payload@.len(),
        ip.payload_len <= ip.max_payload(),
    ensures
        final(arena).wf(),
        match (r, segment_size) {
            (Transmit::Packet(packet), None) => is_tcp_packet(
                contents(packet),
                *ip,
                *f,
                payload@,
                false,
            ),
            (Transmit::TcpGso { packet, payload: parts, segment_size: size }, Some(asked)) => {
                &&& is_tcp_packet(contents(packet), *ip, *f, payload@, true)
                &&& parts@.len() == 0
                &&& size == asked
            },
            _ => false,
        },
{
    let packet = arena.encode(encode_segment(ip, f, payload, segment_size.is_some()));
    match segment_size {
        Some(segment_size) => Transmit::TcpGso { packet, payload: Vec::new(), segment_size },
        None => Transmit::Packet(packet),
    }
}

/// What a segment over a range of what is ready counts for in a queue, with a
/// descriptor for each view of it.
pub fn scattered_cost(ip: &IpHeader, storage: &Storage, start: usize, end: usize) -> (r: usize)
    requires
        ip.payload_len <= 65535,
        storage.wf(),
        start < end <= storage@.ready.len(),
        end - start <= 65535,
    ensures
        r == spec_charge(ip.spec_header_len() + ip.payload_len) + storage.parts(
            start as int,
            end as int,
        ) * VIEW_BYTES,
{
    let count: usize = storage.segment_count(start, end);
    charge(ip.header_len() + ip.payload_len) + count * VIEW_BYTES
}

/// A segment for the device over a range of what is ready. Where the device cuts
/// it, the payload stays in its blocks; otherwise it is copied behind the header.
pub fn emit_scattered(
    arena: &mut PacketArena,
    ip: &IpHeader,
    f: &TcpFields,
    segment_size: Option<u16>,
    storage: &Storage,
    start: usize,
    end: usize,
) -> (r: Transmit)
    requires
        old(arena).wf(),
        ip.wf(),
        f.options.spec_header_len() <= 60,
        storage.wf(),
        start <= end <= storage@.ready.len(),
        ip.payload_len == f.options.spec_header_len() + (end - start),
        ip.payload_len <= ip.max_payload(),
    ensures
        final(arena).wf(),
        ({
            let range = storage@.ready.subrange(start as int, end as int);
            match (r, segment_size) {
                (Transmit::Packet(packet), None) => is_tcp_packet(
                    contents(packet),
                    *ip,
                    *f,
                    range,
                    false,
                ),
                (Transmit::TcpGso { packet, payload, segment_size: size }, Some(asked)) => {
                    &&& is_tcp_packet(contents(packet), *ip, *f, Seq::empty(), true)
                    &&& joined(payload@) == range
                    &&& payload@.len() == storage.parts(start as int, end as int)
                    &&& forall|i: int|
                        0 <= i < payload@.len() ==> storage.is_part(
                            #[trigger] payload@[i],
                            start as int,
                            end as int,
                            i,
                        )
                    &&& size == asked
                },
                _ => false,
            }
        }),
{
    match segment_size {
        Some(segment_size) => {
            let none: &[u8] = &[];
            let packet = arena.encode(encode_segment(ip, f, none, true));
            assert(none@ =~= Seq::<u8>::empty());
            Transmit::TcpGso { packet, payload: storage.segments(start, end), segment_size }
        },
        None => {
            let body = storage.read_allocated(start, end - start);
            assert(body@ =~= storage@.ready.subrange(start as int, end as int));
            Transmit::Packet(arena.encode(encode_segment(ip, f, body.as_slice(), false)))
        },
    }
}

/// Changing a word at an even position changes the sum by the difference.
pub proof fn lemma_word_sum_with(s: Seq<u8>, at: int, value: int)
    requires
        0 <= at,
        at % 2 == 0,
        at + 2 <= s.len(),
        0 <= value <= 65535,
    ensures
        word_sum(with_word(s, at, value)) == word_sum(s) - be16(s, at) + value,
        be16(with_word(s, at, value), at) == value,
{
    let t = with_word(s, at, value);
    lemma_word_sum_split(s, at);
    lemma_word_sum_split(t, at);
    assert(t.take(at) =~= s.take(at));
    assert(t.skip(at).skip(2) =~= s.skip(at).skip(2));
    assert(be16(t.skip(at), 0) == value);
    assert(be16(s.skip(at), 0) == be16(s, at));
}

/// The segment in a packet that carries its whole payload has a valid checksum.
pub proof fn law_segment_checksum_is_valid(
    packet: Seq<u8>,
    ip: IpHeader,
    f: TcpFields,
    body: Seq<u8>,
)
    requires
        is_tcp_packet(packet, ip, f, body, false),
        ip.payload_len == f.options.spec_header_len() + body.len(),
    ensures
        transport_balanced(
            IpHeader { protocol: TCP, ..ip },
            packet.skip(ip.spec_header_len()),
        ),
{
    let tcp = packet.skip(ip.spec_header_len());
    let blank = with_word(tcp, 16, 0);
    let field = be16(tcp, 16);
    lemma_word_sum_with(tcp, 16, 0);
    lemma_word_sum_bounds(blank);
    lemma_address_sum(ip.source);
    lemma_address_sum(ip.destination);
    lemma_complement_balances(
        pseudo_sum(ip.source, ip.destination, TCP as int, ip.payload_len as int) + word_sum(blank),
    );
    assert(word_sum(tcp) == word_sum(blank) + field);
}

/// What the device makes of an aggregate that it does not cut: the headers and the
/// payload behind them, with the checksum of the whole segment in place of the
/// partial one.
pub open spec fn completed(packet: Seq<u8>, at: int, payload: Seq<u8>) -> Seq<u8> {
    let tcp = packet.skip(at) + payload;
    packet.take(at) + with_word(tcp, 16, complement(word_sum(tcp)))
}

/// A partial checksum is what the device needs: once it has put the complement of
/// the sum over the whole segment in its place, the segment is the one that a
/// packet with its whole payload would have carried.
pub proof fn law_device_completes_the_checksum(
    packet: Seq<u8>,
    ip: IpHeader,
    f: TcpFields,
    payload: Seq<u8>,
)
    requires
        is_tcp_packet(packet, ip, f, Seq::empty(), true),
        ip.payload_len == f.options.spec_header_len() + payload.len(),
    ensures
        is_tcp_packet(
            completed(packet, ip.spec_header_len(), payload),
            ip,
            f,
            payload,
            false,
        ),
{
    let at = ip.spec_header_len();
    let len = f.options.spec_header_len();
    let head = packet.skip(at);
    let tcp = head + payload;
    let blank = with_word(tcp, 16, 0);
    let field = be16(tcp, 16);
    let pseudo = pseudo_sum(ip.source, ip.destination, TCP as int, ip.payload_len as int);
    let sum = complement(word_sum(tcp));
    let out = completed(packet, at, payload);
    lemma_word_sum_with(tcp, 16, 0);
    lemma_word_sum_bounds(tcp);
    lemma_word_sum_bounds(blank);
    lemma_address_sum(ip.source);
    lemma_address_sum(ip.destination);
    assert(be16(head, 16) == be16(tcp, 16));
    assert(field == fold(pseudo));
    lemma_fold_sum(pseudo, word_sum(blank));
    lemma_complement_balances(word_sum(tcp));
    assert(sum == complement(pseudo + word_sum(blank)));
    lemma_word_sum_with(tcp, 16, sum);
    assert(out.take(at) =~= packet.take(at));
    assert(out.skip(at) =~= with_word(tcp, 16, sum));
    assert(with_word(out.skip(at), 16, 0) =~= blank);
    assert(blank.take(len) =~= with_word(head, 16, 0).take(len));
    assert(out.skip(at).skip(len) =~= payload);
}

/// The answer to a segment for a port that nobody listens on: a reset where the
/// segment acknowledges nothing counts as one, and an acknowledgment of all of a
/// connection request.
pub open spec fn rst_fields(f: TcpFields, len: int) -> TcpFields {
    TcpFields {
        source_port: f.destination_port,
        destination_port: f.source_port,
        control: TcpControl::Rst,
        seq_number: match f.ack_number {
            Some(ack) => ack,
            None => 0,
        },
        ack_number: if f.control == TcpControl::Syn && f.ack_number is None {
            Some(((f.seq_number + len + 1) % 0x1_0000_0000) as u32)
        } else {
            None
        },
        window_len: 0,
        options: f.options,
        header_len: 20,
    }
}

/// The reset that answers a segment, and the IP header that carries it.
pub fn rst_reply(ip: &IpHeader, f: &TcpFields, payload_len: usize) -> (r: (IpHeader, TcpFields))
    requires
        payload_len <= 65535,
    ensures
        r.0 == (IpHeader {
            source: ip.destination,
            destination: ip.source,
            protocol: TCP,
            payload_len: 20,
            hop_limit: HOP_LIMIT,
        }),
        r.1 == (TcpFields { options: r.1.options, ..rst_fields(*f, payload_len as int) }),
        r.1.options.is_empty(),
{
    let ack_number = if f.control == TcpControl::Syn && f.ack_number.is_none() {
        Some(f.seq_number.wrapping_add(payload_len as u32).wrapping_add(1))
    } else {
        None
    };
    let reply = TcpFields {
        source_port: f.destination_port,
        destination_port: f.source_port,
        control: TcpControl::Rst,
        seq_number: match f.ack_number {
            Some(ack) => ack,
            None => 0,
        },
        ack_number,
        window_len: 0,
        options: TcpOptions::none(),
        header_len: 20,
    };
    let header = IpHeader {
        source: ip.destination,
        destination: ip.source,
        protocol: TCP,
        payload_len: 20,
        hop_limit: HOP_LIMIT,
    };
    (header, reply)
}

/// Answers segments that belong to no connection.
pub struct Rejector {
    arena: PacketArena,
}

impl Rejector {
    pub closed spec fn wf(self) -> bool {
        self.arena.wf()
    }

    pub fn new() -> (r: Rejector)
        ensures
            r.wf(),
    {
        Rejector { arena: PacketArena::new() }
    }

    /// Whether a packet is answered, and what the answer counts for in a queue.
    /// The queue has to admit the answer before `reject` builds it, so that
    /// dropped answers use up no block.
    pub fn cost(&self, packet: &Packet<'_>) -> (r: Option<usize>)
        requires
            packet.wf(),
        ensures
            r is Some == answered(*packet),
            r matches Some(cost) ==> cost == spec_charge(packet.ip.spec_header_len() + 20),
    {
        let segment = packet.tcp()?;
        if segment.fields.control == TcpControl::Rst {
            return None;
        }
        Some(charge(packet.ip.header_len() + 20))
    }

    /// The reset that answers a packet, once the device's queue has admitted what it
    /// counts for. A reset is never answered, nor is what is no valid segment. An answer
    /// that the queue refused takes no storage.
    pub fn reject(&mut self, packet: &Packet<'_>, admitted: bool) -> (r: Option<Transmit>)
        requires
            old(self).wf(),
            packet.wf(),
        ensures
            final(self).wf(),
            r is Some == (answered(*packet) && admitted),
            r is None ==> *final(self) == *old(self),
            r matches Some(item) ==> {
                let segment = tcp_segment(packet.ip, packet.payload@, false)->0;
                item matches Transmit::Packet(bytes) && exists|f: TcpFields|
                    #![trigger is_tcp_packet(
                        contents(bytes),
                        reply_ip(packet.ip),
                        f,
                        Seq::empty(),
                        false,
                    )]
                    is_tcp_packet(contents(bytes), reply_ip(packet.ip), f, Seq::empty(), false)
                        && f.options.is_empty() && f == (TcpFields {
                        options: f.options,
                        ..rst_fields(segment.1, segment.2.len() as int)
                    })
            },
    {
        if !admitted {
            return None;
        }
        let segment = packet.tcp()?;
        if segment.fields.control == TcpControl::Rst {
            return None;
        }
        let (ip, f) = rst_reply(&packet.ip, &segment.fields, segment.payload.len());
        let none: &[u8] = &[];
        assert(none@ =~= Seq::<u8>::empty());
        Some(emit(&mut self.arena, &ip, &f, none, None))
    }
}

/// Whether a packet that belongs to no connection gets an answer.
pub open spec fn answered(packet: Packet<'_>) -> bool {
    match tcp_segment(packet.ip, packet.payload@, false) {
        Some(segment) => segment.1.control != TcpControl::Rst,
        None => false,
    }
}

/// The IP header of an answer without payload.
pub open spec fn reply_ip(ip: IpHeader) -> IpHeader {
    IpHeader {
        source: ip.destination,
        destination: ip.source,
        protocol: TCP,
        payload_len: 20,
        hop_limit: HOP_LIMIT,
    }
}

/// What the flags of a segment ask for is read back from them.
proof fn lemma_flags_read_back(control: TcpControl, acknowledges: bool, flags: u8)
    requires
        flags == tcp_flags(control, acknowledges),
    ensures
        tcp_control(flags) == Some(control),
        (flags / 16 % 2 == 1) == acknowledges,
{
}

/// The length of a TCP header counts words, at least five.
proof fn lemma_header_len(options: TcpOptions)
    ensures
        options.spec_header_len() % 4 == 0,
        options.spec_header_len() >= 20,
{
}

/// A TCP header is read back from the bytes that were written, whatever stands in
/// the checksum field and behind the header.
proof fn lemma_header_reads_back(s: Seq<u8>, h: Seq<u8>, f: TcpFields)
    requires
        is_tcp_header(h, f),
        f.header_len == f.options.spec_header_len(),
        f.header_len <= 60,
        f.source_port != 0,
        f.destination_port != 0,
        f.options.readable(f.ack_number is Some),
        s.len() >= f.header_len,
        forall|i: int| 0 <= i < f.header_len && i != 16 && i != 17 ==> #[trigger] s[i] == h[i],
    ensures
        tcp_fields(s) == Some(f),
{
    let len = f.header_len as int;
    lemma_header_len(f.options);
    lemma_flags_read_back(f.control, f.ack_number is Some, s[13]);
    assert(h.len() == len);
    assert(s[12] == len * 4);
    assert(tcp_header_len(s) == len);
    assert(s.subrange(20, len) =~= h.skip(20));
    assert(be16(s, 0) == be16(h, 0) && be16(s, 2) == be16(h, 2) && be16(s, 14) == be16(h, 14));
    assert(be32(s, 4) == be32(h, 4));
    assert(be32(s, 8) == be32(h, 8));
}

/// A segment is read back from its packet: its flow, its header and its payload.
pub proof fn law_segment_reads_back(packet: Seq<u8>, ip: IpHeader, f: TcpFields, body: Seq<u8>)
    requires
        is_tcp_packet(packet, ip, f, body, false),
        ip.wf(),
        ip.protocol == TCP,
        ip.hop_limit != 0,
        ip.payload_len == f.options.spec_header_len() + body.len(),
        ip.payload_len <= ip.max_payload(),
        spec_unicast(ip.source),
        spec_unicast(ip.destination),
        f.header_len == f.options.spec_header_len(),
        f.header_len <= 60,
        f.source_port != 0,
        f.destination_port != 0,
        f.options.readable(f.ack_number is Some),
    ensures
        ({
            let tcp = packet.skip(ip.spec_header_len());
            &&& spec_parse(packet) == Some(
                ParsedView {
                    ip,
                    header_len: ip.spec_header_len(),
                    payload: tcp,
                    fragment: None,
                },
            )
            &&& tcp_segment(ip, tcp, false) == Some(
                (
                    flow_of(ip, f.source_port, f.destination_port),
                    f,
                    body,
                ),
            )
        }),
{
    let at = ip.spec_header_len();
    let len = f.options.spec_header_len();
    let tcp = packet.skip(at);
    let blank = with_word(tcp, 16, 0);
    let h = blank.take(len);
    lemma_header_len(f.options);
    assert forall|i: int| 0 <= i < len && i != 16 && i != 17 implies #[trigger] tcp[i] == h[i] by {
        assert(h[i] == blank[i]);
    }
    lemma_header_reads_back(tcp, h, f);
    law_segment_checksum_is_valid(packet, ip, f, body);
    law_whole_packet_parses(packet, ip, tcp);
    assert(IpHeader { protocol: TCP, ..ip } == ip);
}

/// A reset is read back from its packet with the numbers that it was given, and
/// nothing else: no payload and no options.
pub proof fn law_reset_reads_back(packet: Seq<u8>, ip: IpHeader, f: TcpFields)
    requires
        is_tcp_packet(packet, ip, f, Seq::empty(), false),
        f.options.is_empty(),
        f.control == TcpControl::Rst,
        f.header_len == 20,
        f.source_port != 0,
        f.destination_port != 0,
        ip == reply_ip(ip_swapped(ip)),
        ip.wf(),
        spec_unicast(ip.source),
        spec_unicast(ip.destination),
    ensures
        ({
            let tcp = packet.skip(ip.spec_header_len());
            &&& spec_parse(packet) == Some(
                ParsedView {
                    ip,
                    header_len: ip.spec_header_len(),
                    payload: tcp,
                    fragment: None,
                },
            )
            &&& tcp_segment(ip, tcp, false) == Some(
                (
                    flow_of(ip, f.source_port, f.destination_port),
                    f,
                    Seq::<u8>::empty(),
                ),
            )
        }),
{
    law_segment_reads_back(packet, ip, f, Seq::empty());
}

/// An IP header with its ends exchanged.
pub open spec fn ip_swapped(ip: IpHeader) -> IpHeader {
    IpHeader { source: ip.destination, destination: ip.source, ..ip }
}

/// A reset answers from the end that was addressed to the end that spoke. It takes the
/// number that the segment acknowledged, or zero; and it acknowledges only a connection
/// request without acknowledgment, and then all of it, its data and its one number among
/// them, around the end of the numbers where there is need.
pub proof fn law_resets_fit_what_they_answer(f: TcpFields, len: int)
    requires
        0 <= len <= 65535,
    ensures
        ({
            let r = rst_fields(f, len);
            &&& r.control is Rst
            &&& r.source_port == f.destination_port && r.destination_port == f.source_port
            &&& f.ack_number matches Some(number) ==> r.seq_number == number && r.ack_number is None
            &&& f.ack_number is None ==> r.seq_number == 0
            &&& r.ack_number is Some <==> f.control is Syn && f.ack_number is None
            &&& r.ack_number matches Some(number) ==> (number - f.seq_number) % 0x1_0000_0000 == len
                + 1
            &&& r.window_len == 0 && r.header_len == 20
        }),
{
}

/// The answer goes back between the same hosts, over TCP, with all of its hops ahead.
pub proof fn law_answers_go_back(ip: IpHeader)
    ensures
        ({
            let r = reply_ip(ip);
            &&& r.source == ip.destination && r.destination == ip.source
            &&& r.protocol == 6 && r.payload_len == 20 && r.hop_limit == 64
            &&& reply_ip(r).source == ip.source && reply_ip(r).destination == ip.destination
        }),
{
}

/// Every valid segment that belongs to no connection is answered, unless it is a reset
/// itself; so no two endpoints answer each other for ever.
pub proof fn law_resets_are_not_answered(packet: Packet<'_>)
    ensures
        answered(packet) <==> tcp_segment(packet.ip, packet.payload@, false) is Some
            && packet.payload@[13] & 7 != 4,
{
    law_tcp_headers_read_as_they_stand(packet.payload@);
}

} // verus!
