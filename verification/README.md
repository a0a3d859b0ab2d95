# rust_slicer

Slices Rust functions in their intermediate representation: given some
statements or places of a function, it finds the places and the points that
matter to them. The library is written in Verus, and its contracts say what each
function computes.

- `src/analysis/relevance/`: the backward analysis that finds which places matter
  to chosen statements.
- `src/flow/`: what a place at a point depends on, and what depends
  on it, from the results of a flow analysis.
- `src/eval/`: slicing on the locals of every function of a crate in every mode,
  and what is measured of it.
- `src/config.rs`, `src/source.rs`: ranges of source text, byte spans, and the
  settings of the slicer.
- `src/mir.rs`, `src/index_set.rs`, `src/index_matrix.rs`: places, points and sets
  of them by number.
- `app/`: the same for a compiler driver, with serialisable values, threads and
  a clock.

The analyses work on tables of numbered places and points. A driver fills them
from the compiler.
