# move_fuzzer

Verified core of a Move smart-contract fuzzer for the Aptos and Sui dialects.

- `src/mutator/types.rs`: the Move values the fuzzer builds (`Type`), their
  mathematical model (`TypeView`), structural equality and copies.
- `src/mutator/aptos_mutator.rs`: how the Aptos mutator turns values into
  big-endian bytes for a byte-level mutation engine, which runs of the engine
  mutating a list of values takes (`mutation_requests`), and how the values are
  read back from the engine's outputs (`assemble_mutations`), with the laws
  that relate them.
- `src/mutator/mutator.rs`: the `Mutator` trait.
- `src/fuzzer/stats.rs`: per-thread and campaign counters, and the highest
  gas seen per target function.
- `src/fuzzer/coverage.rs`, `src/fuzzer/crash.rs`: coverage entries and
  crashes, with equality by their models.
- `src/fuzzer/fuzzer.rs`: the campaign state: the coverage corpus, the unique
  crashes, and how each report of a worker thread changes them.
- `src/runner/`: the supported chains and the Aptos input helpers.

`app/` holds what does I/O or floating point around the library: compiling the
target package, the gas bias of the Aptos mutator and its byte-level engine,
and the main loop over the worker channels.
