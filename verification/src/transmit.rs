//! What a queue to the device holds.
use crate::shared::contents;
use crate::storage::{charge, spec_charge};
use crate::wire::SocketAddress;
use bytes::Bytes;
use vstd::prelude::*;

verus! {

/// What the descriptor of a view counts for.
pub const VIEW_BYTES: usize = 32;

/// What a queued datagram counts for besides its payload.
pub const DATAGRAM_BYTES: usize = 48;

/// One item for the device. TCP has produced an IP packet already. UDP is
/// packetized by the endpoint, so that all associations share the identifications
/// of fragments.
#[allow(inconsistent_fields)]
pub enum Transmit {
    Packet(Bytes),
    TcpGso { packet: Bytes, payload: Vec<Bytes>, segment_size: u16 },
    Datagram { source: SocketAddress, destination: SocketAddress, payload: Bytes },
}

/// The bytes of some views together.
pub open spec fn total_len(parts: Seq<Bytes>) -> int
    decreases parts.len(),
{
    if parts.len() == 0 {
        0
    } else {
        total_len(parts.drop_last()) + contents(parts.last()).len()
    }
}

/// Some of the views have no more bytes than all of them.
pub proof fn lemma_total_len(parts: Seq<Bytes>, n: int)
    requires
        0 <= n <= parts.len(),
    ensures
        0 <= total_len(parts.take(n)) <= total_len(parts),
    decreases parts.len(),
{
    if n == parts.len() {
        assert(parts.take(n) =~= parts);
        if n > 0 {
            lemma_total_len(parts.drop_last(), n - 1);
            assert(parts.drop_last().take(n - 1) =~= parts.drop_last());
        }
    } else {
        lemma_total_len(parts.drop_last(), n);
        assert(parts.drop_last().take(n) =~= parts.take(n));
    }
}

/// Adds up the lengths of some views.
pub fn length_of(parts: &Vec<Bytes>) -> (r: usize)
    requires
        total_len(parts@) <= usize::MAX,
    ensures
        r == total_len(parts@),
{
    let mut sum: usize = 0;
    let mut i: usize = 0;
    assert(parts@.take(0) =~= Seq::<Bytes>::empty());
    while i < parts.len()
        invariant
            i <= parts@.len(),
            sum == total_len(parts@.take(i as int)),
            total_len(parts@) <= usize::MAX,
        decreases parts@.len() - i,
    {
        proof {
            assert(parts@.take(i as int + 1).drop_last() =~= parts@.take(i as int));
            lemma_total_len(parts@, i as int + 1);
        }
        sum = sum + parts[i].len();
        i = i + 1;
    }
    assert(parts@.take(i as int) =~= parts@);
    sum
}

impl Transmit {
    /// What the item counts for in its queue.
    pub open spec fn spec_size(self) -> int {
        match self {
            Transmit::Packet(packet) => spec_charge(contents(packet).len() as int),
            Transmit::TcpGso { packet, payload, .. } => spec_charge(
                contents(packet).len() + total_len(payload@),
            ) + payload@.len() * VIEW_BYTES,
            Transmit::Datagram { payload, .. } => contents(payload).len() + DATAGRAM_BYTES,
        }
    }

    pub fn size(&self) -> (r: usize)
        requires
            self.spec_size() <= usize::MAX,
        ensures
            r == self.spec_size(),
    {
        match self {
            Transmit::Packet(packet) => charge(packet.len()),
            Transmit::TcpGso { packet, payload, .. } => {
                proof {
                    lemma_total_len(payload@, 0);
                    assert(payload@.len() * VIEW_BYTES >= 0);
                    assert(spec_charge(contents(*packet).len() + total_len(payload@)) >= contents(
                        *packet,
                    ).len() + total_len(payload@));
                }
                let bytes: usize = packet.len() + length_of(payload);
                charge(bytes) + payload.len() * VIEW_BYTES
            },
            Transmit::Datagram { payload, .. } => payload.len() + DATAGRAM_BYTES,
        }
    }
}

/// An item counts for all that it keeps alive: its bytes, and a descriptor for each view of
/// a payload that stays in its blocks.
pub proof fn law_items_count_for_what_they_hold(item: Transmit)
    ensures
        item matches Transmit::Packet(packet) ==> item.spec_size() >= contents(packet).len(),
        item matches Transmit::TcpGso { packet, payload, segment_size } ==> item.spec_size()
            >= contents(packet).len() + total_len(payload@) + 32 * payload@.len(),
        item matches Transmit::Datagram { source, destination, payload } ==> item.spec_size()
            == contents(payload).len() + 48,
{
    if let Transmit::TcpGso { packet, payload, segment_size } = item {
        lemma_total_len(payload@, 0);
    }
}

} // verus!
