# kotoconn

The core of a user-space TUN endpoint, and a small TypeScript transpiler, verified with
Verus.

The library in `src/` holds the rules and the computations; what only the operating
system, the clock or the protocol engine can tell comes in as an argument:

- IP: `wire`, `checksum` and `packet` read and write headers and validate packets;
  `decoder`, `ranges` and `reassembly` put fragments together within a shared
  allowance; `pieces` states what becomes of consistent and of malformed fragments;
  `fragments` keeps all fragments of a datagram with one worker, `holders` the shares
  that outlive their route.
- UDP: `udp` frames datagrams, `udp_direct` exchanges them with a socket.
- TCP: `segment` writes segments and resets, `tcp_storage` and `blocks` hold the bytes
  of a connection, `tcp` and `turn` decide each step of it, `exchange` and `tcp_direct`
  move its bytes to the application or to another stream.
- The endpoint: `worker` knows the flows of a queue, `endpoint` groups output for the
  device and supervises the workers, `offload` handles virtio headers, `linux` checks an
  interface's configuration, `pool`, `storage`, `transmit` and `device` hold packets.
- `roundtrip` states what a receiver reads back from what was sent, `fleet` which worker
  of an endpoint gets it.
- `typescript` transpiles one module.

Functions state their results in `ensures` over mathematical models. Properties that
span functions are public proof functions whose names start with `law_`. What the
library takes from other crates (`smoltcp`, `bytes`, `ahash`, `crossbeam-queue`,
`rand`, `tun-rs`, `oxc`) stands behind functions whose doc comments name the outside
function and what is taken from it without proof.

`app/` is ordinary Rust around the library: devices, tasks, queues, shared state. The
TCP protocol engine is supplied through a trait, because no published socket works on
storage of another crate. `tests/` runs the library with the real outside crates.
