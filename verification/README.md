# reo_rs

Rule-based port automata for Reo-style protocols, verified with Verus.

A protocol is an automaton whose transitions are rules over three-valued
memory variables (`T`, `F`, or unspecified `X`): a guard, an optional port,
and an assignment. The library proves the rule algebra (application,
composition, merging), the elimination of silent rules, projection onto a
set of atomic ports, and a randomized simulation check between a protocol
and its projection. Around it stand the decision logic of rendezvous ports,
of data acquisition by getters, of port claiming, and type-level session
tokens.

Layout:

- `src/var.rs`, `src/state_set.rs`, `src/ordering.rs`: variables, state sets
  and their specificity order.
- `src/rule.rs`: abstract rules and their operations; `src/laws.rs`: the laws
  of the rule algebra.
- `src/rbpa.rs`: automata, normalization and projection; `src/pair_test.rs`:
  the simulation check.
- `src/ports.rs`, `src/acquire.rs`, `src/claim.rs`: decisions of port
  operations, data acquisition and port claiming; `src/acquire_group.rs`:
  several getters acquiring one datum at once, with their steps
  interleaved on the space they share.
- `src/tokens.rs`, `src/helper.rs`, `src/proto.rs`: session tokens and small
  helpers; `src/text.rs`: the text forms of state sets, masks and rules.
- `src/var_store.rs`, `src/port_set.rs`, `src/random.rs`: the trusted
  boundary to `smallvec`, `hashbrown` and `rand`.
- `app/`: blocking ports on locks and channels, type-erased data
  descriptions, parsing, printing of automata and traces, and the
  projection demonstration.
