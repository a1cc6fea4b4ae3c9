# crdt_sss_rs

A replicated add/remove set (a CRDT) over string ids. Each item keeps the last
known operation on it (an addition or a removal) with its wall-clock time and
vector clock; replicas exchange full states and merge them, check which of their
operations a peer lacks, and drop old removals after a time to live.

- `src/` is the verified library:
  - `str_map.rs`: a map keyed by strings, kept as a vector of distinct entries;
  - `vclock.rs`: vector clocks, their order, merge and tick, and the laws of the merge;
  - `crdt_set.rs`: the set, the rule by which an operation replaces another, merge,
    garbage collection and the anti-entropy check, with their laws;
  - `replica.rs`: a replica's id and state and what it computes when it is asked to
    add, remove, list, collect garbage, send or receive a state;
  - `clock.rs`: the wall clock.
- `app/` is the command-line program: it keeps the state in `<root>/state.json`,
  exchanges states through `<root>/inbox`, and (de)serialises them as JSON.
- `tests/` runs the library on concrete values.
