# swle

Sliding-window leader election (SWLE), a reputation-based leader election for partially
synchronous Byzantine fault tolerant protocols, written and proved in Verus.

- `src/swle.rs`: the state of the election at a replica and everything that changes it.
- `src/voters.rs`, `src/votes.rs`, `src/leader_list.rs`, `src/candidates.rs`,
  `src/target_view.rs`: what the election is made of, each with its mathematical model.
- `src/reputation.rs`: the scoring rules R1 to R5.
- `src/binary32.rs`, `src/rounding.rs`: single-precision numbers in integer arithmetic.
  Scores are single-precision numbers, and every addition is proved to be rounded to the
  nearest number, ties to even.
- `src/replica_map.rs`, `src/crypto.rs`: maps keyed by replicas, and the keys.
- `src/metrics.rs`: counters and samples of throughput and latency.
- `src/properties/`: theorems about the election as a whole.
- `app/`: the node around the library: channels, files, logging, the wire format.
- `tests/`: the library at work, next to the machine's own floating point.
