# Archipelago

A deterministic, simulated distributed file system whose behaviour is stated in
contracts and proved with Verus. Chunking, content addressing, rendezvous
placement, replication, Reed Solomon erasure coding, a replicated metadata log,
quorum reads and writes and self healing run in one process over a seeded network
simulator that can crash nodes and partition the network.

## Layout

- `src/`: the library. Every executable function has a contract that says what it
  returns and what it does to the cluster as a function of the state before.
  - data and formats: `hash`, `varint`, `encode`, `chunk`, `message`, `wire`,
    `text`, `path`, `ordmap`, `error`, `code`, `options`
  - erasure coding: `gf`, `linear`, `erasure`
  - nodes and network: `placement`, `net`, `storagenode`, `namespace`, `metadata`
  - the cluster: `cluster`, `client`, `shell`; the functions that their contracts
    speak of are in `simulation` and `protocol`
  - what follows: `tree`, `soundness`, `durability`, `truth`, `replicas`,
    `progress`, `commits`, `quorums`, `availability`, `pacing`, `readback`,
    `arrival`, `spreading`, `reconstruction`, `absence`, `repair`, `healing`,
    `upkeep`, `replay`, `faultless`, `lastwrite`, `weathering`
- `tests/`: the library from outside, on concrete runs.
- `app/`: the `arch` command line program.

## What is proved about the whole

- The namespace is a tree, and each operation does to it what a simple file system
  would do.
- A read yields bytes that match the content hash of the file at the path, or an
  error; what too few nodes in reach hold, because the others crashed or were
  partitioned away, is reported as unavailable.
- A message decodes from its own bytes to itself, whatever follows them, and from no
  strict prefix of them.
- A chunk that a node acknowledged is held by it and never lost; a successful write
  is held by a write quorum of nodes, or by enough shards to reconstruct it.
- A metadata operation that succeeded is applied by a quorum. On a network that drops
  nothing, with deadlines that leave time for messages to travel and a metadata quorum
  of more than one node, what was committed stays committed: in a whole run from a
  fresh cluster with any crashes, recoveries, partitions and re-replication, in which
  a metadata quorum is up and fewer metadata nodes than that are down at all times,
  the namespace is what the operations that succeeded made of it, whoever becomes
  primary.
- On a network that drops nothing and is not partitioned, with time for messages to
  travel, operations succeed exactly when the namespace allows them, a file that was
  written reads back byte for byte, also after losses, and re-replication brings
  every chunk that a live node holds back to full strength. The losses may be any
  that leave a read quorum of the stored replicas or, with erasure coding, at most as
  many nodes as a chunk has parity shards. A read of an erasure-coded file brings
  every shard that was lost back to a live node.
- In a whole run without faults from a fresh cluster, over a link that drops nothing,
  a file reads as it was last written, as long as no two parts of the files have the
  same SHA-256. With replication, a read may ask for as many copies as the write
  waited for; over a link whose jitter is at most four base latencies, as the default
  one's is, for as many as there are.
- A run is a function of the options, the seed and the operations.
