# n2

A build tool that loads Ninja build files and runs the out-of-date steps,
with its logic verified by Verus.

- `src/` is the library, verified by Verus: path
  canonicalization, the build file scanner, parser and loader, variable
  evaluation, the build graph, the build-state machine that decides what runs
  when, the manifest hashes, the on-disk database format, depfile parsing,
  task results, progress rendering, and command line handling.  The laws the
  library keeps stand in it as public proof functions named `law_*`.  Its
  calls into outside crates (rustc-hash, ahash, hashbrown, lexopt) go
  through a few small functions marked `#[verifier::external_body]`, whose
  contracts are trusted rather than proved; their doc comments say what
  each claims of the crate it calls.
- `app/` is the program around it: files, processes, threads, signals, the
  terminal, the trace file; it drives `work::Work::poll` and
  `work::Work::task_finished` with real commands.
- `tests/` runs the library, end to end over an in-memory file system
  (`tests/e2e.rs`) and function by function.
