# trajecta_met

The meteorology query layer of trajecta: memory budgets and the column
cache, batch layout and hard-budget chunking, structure-of-arrays output
columns, plan compilation, exact request identities and observation
counters, and the adjudication of comparison reports against a tolerance
registry.

## Layout

- `src/` is the library, written in Verus. Every executable function carries
  a `requires`/`ensures` contract over mathematical models (`Seq`, `Set`,
  spec functions and views), and the library's laws are public proof
  functions next to the code they speak of:
  - `query/cache.rs`: budgets, the LRU column cache with pins, exact
    transport request identities and ordered-subset reuse;
  - `query/layout.rs`: execution order, group runs, permutations, chunk plans;
  - `query/output.rs`: canonical validity bit masks and output columns;
  - `query/request.rs`: plan compilation against registered fields,
    capabilities and surface-layer models;
  - `query/metrics.rs`: caller categories, exact request keys and counters;
  - `validation/`: rule selection, registry checks, slab prechecks and
    report adjudication;
  - `digest.rs`: SHA-256 (`sha2`) and hexadecimal text (`hex`), the only
    calls into outside crates, each behind a small trusted wrapper.
- `tests/` exercises the library from outside.
- `app/` is ordinary Rust around the library: thread-local query context,
  JSON registry and report documents (`serde`, `serde_json`), file
  integrity checks, and the floating-point science and metric evaluation
  that the library does not hold.
