# rnet_drand

Distributed randomness by commit and reveal. Every participant of a session
draws a secret, publishes the SHA-256 commitment to it, then reveals it; each
revealed secret is checked against its commitment, dishonest peers are
blacklisted, and the commitments of the others are folded by exclusive or
into the session's beacon, which every node computes for itself and compares
with the leader's.

Layout:

- `src/` — the verified library.
  - `drand.rs`: the session state, the book of commitments (one per
    address, never replaced once recorded), and the step a node takes on each
    protocol event; the laws (a commitment binds its maker; a committed node
    stays locked into its secret; same book, same beacon; blacklisted peers
    count for nothing).
  - `common.rs`: commitments, secrets, the beacon (`xor_sha_commits`) and the
    law that it does not depend on the order of the commitments; the messages
    and the settings file.
  - `cli.rs`: the console's command language.
  - `node.rs`: the two roles of a node, and the bootstrap map of topics
    with its upkeep (adopt the latest map, broadcast it only when it changed).
  - `text.rs`: words, lines, prefixes and numbers.
  - `trusted.rs`: the calls into `sha2`, `hex`, `rand` and the system clock,
    with the contracts that are believed of them.
- `tests/` — tests of the library.
- `app/` — the networked node: console, event loop, timing, wire format.
