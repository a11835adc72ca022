//! Verified core of a user-space TUN endpoint: IP validation and reassembly,
//! UDP framing, TCP buffering, and the rules that move packets between them.
use vstd::prelude::*;

pub mod aggregates;
pub mod blocks;
pub mod checksum;
pub mod decoder;
pub mod device;
pub mod duties;
pub mod endpoint;
pub mod exchange;
pub mod fleet;
pub mod fragments;
pub mod holders;
pub mod index;
pub mod linux;
pub mod offload;
pub mod packet;
pub mod pieces;
pub mod pool;
pub mod queue;
pub mod ranges;
pub mod reassembly;
pub mod roundtrip;
pub mod segment;
pub mod shared;
pub mod storage;
pub mod sums;
pub mod table;
pub mod tcp;
pub mod tcp_direct;
pub mod tcp_storage;
pub mod transmit;
pub mod turn;
pub mod typescript;
pub mod udp;
pub mod udp_direct;
pub mod wire;
pub mod worker;

verus! {

} // verus!
