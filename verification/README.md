# raxos

Abstract Paxos: the pieces of a Paxos-like consensus protocol whose notion of
time is any partially ordered set (ballot numbers, `(term, voted_for)`,
divisibility, ...), written in Verus with their behaviour stated in contracts
and proved.

- `src/apaxos`: time (`ptime`), the `>=` relation (`greater_equal`), a map
  keyed by it (`greater_equal_map`), the `History` trait and the views of a
  history (`history_view`, `focal_history`, `branch`), the acceptor, and the
  proposer with its two phases.
- `src/commonly_used`: histories of a partial order (`generic`) and of a
  total order (`linear`), the majority quorum set, and a transport that calls
  the acceptors directly.
- `src/implementations/paxos.rs`: classic Paxos as a choice of types, and
  `rounds.rs`: rounds of classic Paxos on a cluster reached by direct calls,
  with the law that a committed value is kept by every later round, also
  while replies that earlier rounds did not receive still wait.
- `app/`: a program that evolves contour lines with floating-point
  arithmetic and draws them, and the copies of library types that carry the
  derives and traits of outside crates.
