# pegastore

A placement-aware, immutable large-object cache. A value is a set of **slots**;
each slot is placed, tracked and evicted on its own, on a **device** (`cpu:0`,
`gpu:3`). `put` is write-once, a read is served from the nearest replica, and a
reader becomes a source with `publish`.

`src/` is the library, verified with Verus:

- `types`, `error`, `ops`, `region`: keys, devices, placements, errors, requests
  and registered memory.
- `store`, `access`: the handle that checks a request against a backend's
  capability, and the trait that a backend implements.
- `services`: the in-process backend, which is the semantic reference. `model`
  says what every operation does; `laws`, `order`, `arrival` and `history` what
  holds over several of them: what is evicted first, and what a slot keeps.
- `local`: the single-node backend as a state machine. It decides what is to be
  copied where and is told how the copy went; `ledger` is its model, `safety` its
  invariant, `laws`, `queue` and `oracle` what follows, among it that it answers
  as the reference does.
- `pinned`, `copy`, `topology`: the pool allocator, copy plans, distances.
- `rdma`: NIC and GPU discovery, CPU lists, ports and GIDs, wire forms, round
  robin, registered memory, batches and the handshake state machine.
- `text`, `sorted`, `index`, `blob`: what the others are written with.

`app/` is the part that does I/O: asynchronous handles, raw memory, CUDA, sysfs
and RDMA verbs. It asks the library what to do, does it, and reports back.

`tests/` runs the library.

What is not proved but relied on is marked `external_body`, `assume_specification`
or `uninterp` and documented where it stands: a few functions of `std`, of `bytes`
and of `bincode`.
