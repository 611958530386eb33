# landsraad

A Raft-style replicated store whose core is proved with Verus: every
consensus rule, the payload codec, the key-value state machine, the disk
layout of a node's state, and the simulated cluster with its safety checker
carry contracts that Verus checks.

## Layout

- `src/` — the verified library.
  - `message.rs`, `codec.rs`: the four consensus messages and the byte
    layout of their payloads, with a decoder that is total on arbitrary
    bytes and a round-trip law.
  - `storage.rs`: a node's persistent state behind the `Storage` trait,
    stated over the persisted value, and `MemStorage`.
  - `model.rs`, `node.rs`, `laws.rs`: the node as a function from state and
    input to next state and messages; the executable node is proved to
    follow it exactly, and the laws (one vote per term, log matching on
    append, the Figure 8 commit rule, persist before reply, ...) are proved
    over it.
  - `kv.rs`: the replicated key-value state machine and its command
    encoding.
  - `layout.rs`: keys and values of a node's state in an ordered store, and
    the writes each storage operation makes.
  - `checker.rs`, `cluster.rs`: the simulated cluster (partitions, crashes,
    restarts, routing, counters) and the safety checker run after every
    tick, which reports exactly the first breach it meets.
  - `rng.rs`: SplitMix64.
- `tests/`: scenario tests, including whole-cluster runs over a perfect
  network held by the test.
- `app/`: the `landsraad-chaos` runner: distrans frames and channels, the
  random fault schedule, sietch-backed storage and printing.
