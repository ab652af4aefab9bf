# ncp

Core algorithms of the Neural Consensus Protocol, verified with Verus.

- `src/` is the verified library: majority voting and Byzantine fault tolerance
  (`voting`, `types`), the statistics and candidate rules of the UCB1 attack scheduler
  (`ucb`), the counts behind stance agreement (`entropy`), and consensus store
  statistics (`consensus`). Each public function carries an exact contract, and the
  properties the protocol relies on are stated and proved as public proof functions.
- `app/` holds what computes in floating point (entropy vectors, UCB1 scores, ELO
  reputation, claim confidence and decay) on top of the library, and serde-enabled
  copies of the library's data types.
- `tests/` exercises the library on concrete values.
