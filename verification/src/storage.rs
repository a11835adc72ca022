//! Packet boundaries over shared blocks. Each producer keeps an arena of its own,
//! so that consumption in order releases old blocks and no other flow pins them.
use crate::shared::{contents, from_vec, mut_contents};
use bytes::{Bytes, BytesMut};
use vstd::prelude::*;

verus! {

/// The size of the blocks that small packets share.
pub const BLOCK: usize = 16384;

/// A producer's current block.
pub struct PacketArena {
    tail: BytesMut,
}

impl PacketArena {
    /// Every published packet has left the block.
    pub closed spec fn wf(self) -> bool {
        mut_contents(self.tail).len() == 0
    }

    pub fn new() -> (r: PacketArena)
        ensures
            r.wf(),
    {
        PacketArena { tail: BytesMut::new() }
    }

    /// Publishes a packet as an immutable view. Small packets share a block;
    /// large packets keep the allocation that they came in.
    pub fn encode(&mut self, packet: Vec<u8>) -> (r: Bytes)
        requires
            old(self).wf(),
        ensures
            final(self).wf(),
            contents(r) == packet@,
    {
        if packet.len() > BLOCK / 2 {
            return from_vec(packet);
        }
        if self.tail.capacity() < packet.len() {
            // Replace the tail rather than reallocating a block with live views.
            self.tail = BytesMut::with_capacity(BLOCK);
        }
        self.tail.extend_from_slice(packet.as_slice());
        let bytes = self.tail.split().freeze();
        assert(contents(bytes) =~= packet@);
        bytes
    }
}

impl Default for PacketArena {
    fn default() -> (r: PacketArena)
        ensures
            r.wf(),
    {
        PacketArena::new()
    }
}

/// What a packet of this length counts for in a queue: twice its length while it
/// shares a block, its length where it has one of its own.
pub open spec fn spec_charge(len: int) -> int {
    if len <= BLOCK / 2 {
        2 * len
    } else {
        len
    }
}

/// Conservative packing charge, descriptor metadata aside. A retired block is
/// over half full because pooled packets are at most half a block. This is queue
/// accounting, not a quota on memory.
pub fn charge(len: usize) -> (r: usize)
    ensures
        r == spec_charge(len as int),
{
    if len <= BLOCK / 2 {
        2 * len
    } else {
        len
    }
}

/// A packet that shares a block counts twice, one with a block of its own once; none
/// counts for less than it holds.
pub proof fn law_charges_cover_the_bytes(len: int)
    requires
        0 <= len,
    ensures
        len <= 8192 ==> spec_charge(len) == len + len,
        len > 8192 ==> spec_charge(len) == len,
        spec_charge(len) >= len,
{
}

} // verus!
