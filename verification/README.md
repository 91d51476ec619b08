# calibre

A verified laboratory for a payment system without a chain: value lives in cells,
an owner signs each transfer, and five of seven validators certify it. Transfers
that touch different cells need no common order.

`src/` holds the logic. Verus checks every function of it against its contract.

- `bytes`, `text`, `ordmap`: encodings, texts and ordered maps that the rest is built on.
- `crypto`, `bls`: the boundary to the hash and signature crates.
- `model`, `state`, `wire`, `store`, `node`: transfers, votes and certificates; the
  state that they change; the bytes on the wire and in the log; the validator.
- `config`, `controller`, `phase_a`, `campaign`, `metrics`: the plan, the decisions and
  the reports of the integration run.
- `safety`: no conflict is finalized twice while at most two validators are Byzantine.
- `finality`, `convergence`, `binding`: honest parties reach finality; schedules end in
  one state; what signatures and digests bind.
- `wire_laws`, `wire_forms`, `store_laws`, `store_runs`, `sec004_laws`: round trips, one
  form for each message, replay, restart, and logs that were cut or altered.
- `spend`, `threshold`, `sec001` to `sec006`: owner authorization, threshold
  certificates, durable locks, witnesses, and the packets of a TPM counter.
- `engine`, `bundle`, `batch`, `envelope`, `streams`, `perf002` to `perf014`: the
  sharded state engines and the records that feed them.
- `auth`, `auth_ed25519`, `perf018` to `perf020`: authorization checks one by one, in
  batches and in aggregate.

`app/` is the program around it: processes, sockets, files, threads, clocks and
output. Its first argument names an experiment; without one the controller of the
seven validators runs.

`tests/` runs the library, with the real hash and signature crates.
