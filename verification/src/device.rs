//! One packet on its way in and a bounded number on their way out.
use crate::shared::contents;
use crate::storage::PacketArena;
use bytes::Bytes;
use std::collections::VecDeque;
use vstd::prelude::*;

verus! {

/// How many packets may wait to go out.
pub const EGRESS: usize = 32;

/// The ends of a device between a TCP stack and its driver. The driver waits for
/// room on the way out before it polls the stack again.
pub struct Device {
    incoming: Option<Vec<u8>>,
    outgoing: VecDeque<Bytes>,
    arena: PacketArena,
    mtu: usize,
}

impl Device {
    /// The packet on its way in.
    pub closed spec fn ingress(&self) -> Option<Seq<u8>> {
        match self.incoming {
            Some(packet) => Some(packet@),
            None => None,
        }
    }

    /// The packets on their way out, in order.
    pub closed spec fn egress(&self) -> Seq<Bytes> {
        self.outgoing@
    }

    pub closed spec fn spec_mtu(&self) -> usize {
        self.mtu
    }

    pub closed spec fn wf(&self) -> bool {
        self.arena.wf() && self.outgoing@.len() <= EGRESS
    }

    pub fn new(mtu: usize) -> (r: Device)
        ensures
            r.wf(),
            r.ingress() is None,
            r.egress().len() == 0,
            r.spec_mtu() == mtu,
    {
        Device {
            incoming: None,
            outgoing: VecDeque::new(),
            arena: PacketArena::new(),
            mtu,
        }
    }

    /// Puts a packet on its way in, in place of one that was not taken.
    pub fn deliver(&mut self, packet: Vec<u8>)
        requires
            old(self).wf(),
        ensures
            final(self).wf(),
            final(self).ingress() == Some(packet@),
            final(self).egress() == old(self).egress(),
            final(self).spec_mtu() == old(self).spec_mtu(),
    {
        self.incoming = Some(packet);
    }

    /// Whether a packet may go out now.
    pub fn can_transmit(&self) -> (r: bool)
        requires
            self.wf(),
        ensures
            r == (self.egress().len() < EGRESS),
    {
        self.outgoing.len() < EGRESS
    }

    /// Takes the packet on its way in. It waits while its answer has no room.
    pub fn receive(&mut self) -> (r: Option<Vec<u8>>)
        requires
            old(self).wf(),
        ensures
            final(self).wf(),
            r is Some == (old(self).egress().len() < EGRESS && old(self).ingress() is Some),
            r matches Some(packet) ==> old(self).ingress() == Some(packet@) && final(
                self).ingress() is None,
            r is None ==> final(self).ingress() == old(self).ingress(),
            final(self).egress() == old(self).egress(),
            final(self).spec_mtu() == old(self).spec_mtu(),
    {
        if self.outgoing.len() >= EGRESS {
            return None;
        }
        self.incoming.take()
    }

    /// Puts a packet on its way out.
    pub fn transmit(&mut self, packet: Vec<u8>)
        requires
            old(self).wf(),
            old(self).egress().len() < EGRESS,
            packet@.len() <= old(self).spec_mtu(),
        ensures
            final(self).wf(),
            final(self).egress().len() == old(self).egress().len() + 1,
            final(self).egress().drop_last() == old(self).egress(),
            contents(final(self).egress().last()) == packet@,
            final(self).ingress() == old(self).ingress(),
            final(self).spec_mtu() == old(self).spec_mtu(),
    {
        let ghost before = self.outgoing@;
        let bytes = self.arena.encode(packet);
        self.outgoing.push_back(bytes);
        assert(self.outgoing@.drop_last() =~= before);
    }

    /// Takes the next packet on its way out.
    pub fn take_outgoing(&mut self) -> (r: Option<Bytes>)
        requires
            old(self).wf(),
        ensures
            final(self).wf(),
            r == (if old(self).egress().len() > 0 {
                Some(old(self).egress()[0])
            } else {
                None
            }),
            final(self).egress() == (if old(self).egress().len() > 0 {
                old(self).egress().skip(1)
            } else {
                old(self).egress()
            }),
            final(self).ingress() == old(self).ingress(),
            final(self).spec_mtu() == old(self).spec_mtu(),
    {
        let ghost before = self.outgoing@;
        let r = self.outgoing.pop_front();
        proof {
            if before.len() > 0 {
                assert(self.outgoing@ =~= before.skip(1));
            } else {
                assert(self.outgoing@ =~= before);
            }
        }
        r
    }
}

} // verus!
