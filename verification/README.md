# aionfm

Core of the AionFM temporal foundation-model toolkit, written in Verus.

- `src/` is the verified library: request validation, CSV parsing (through the `csv` crate),
  schema resolution and row grouping, missing-value fill plans, patch and retrieval windows,
  regime vocabularies, adapter registries, adaptation runs (with ids built by the `uuid` crate
  from caller-supplied random bytes), temporal memory, reconciliation plans, scenario controls,
  evaluation pairing and the counters and stores that serving keeps. Every public function states
  its result in its contract, and the laws that relate several calls are public proof functions
  (`adapter::laws`, `vocabulary::laws` and the `lemma_*` functions beside the types).
- `tests/` exercises the library on concrete values.
- `app/` is the service layer around it: the serde contracts of the public API, the
  floating-point numerics of the statistical baseline, reading files and drawing random bytes,
  async traits and the thread-shared serving state.

## Maps keyed by text

The adapter registry, the metadata manager, the regime tally and the vocabulary's label index are
keyed by `String`. They are kept as vectors of entries: sorted by name where the order is
observable (the registry lists its configs in name order), with distinct keys as a type
invariant otherwise. A `BTreeMap<String, _>` is accepted by Verus, but vstd specifies its
`insert`, `get` and `len` only for keys whose order and equality it knows, which does not hold
of `String`; no fact about a lookup after an insert could be proved on it. Maps keyed by integers
(the vocabulary's tokens by ID) stay `BTreeMap`s.
