# syntecnia_serve

The HTTP server of the Syntecnia language: routing and virtual hosts, content negotiation,
the response contract with pagination, static files, event streams, encrypted connections,
and `parallel_map` over a bounded pool of workers.

- `src/` decides and computes. Every function there has a contract, and Verus proves it.
  What is believed of other crates and of std stands in `src/outside.rs` (and one function of
  `String` in `src/text.rs`).
- `app/` does what remains: sockets, threads, files, clocks, and the closures of the program
  that embeds the language. Where a decision needs the outside, a function of the library says
  what is to be done (`dispatch::Step`, `body::Want`, `static_files::NextLookup`) and another
  takes the outcome.
- `tests/` runs the library on concrete values, with the real outside crates.

The functions named `law_…` are proofs of what holds across functions: that the pages of a
collection make it up, that a parallel map gives what a sequential one gives, that nothing
outside a mounted directory is served, that escaped text holds no markup, and so on.
