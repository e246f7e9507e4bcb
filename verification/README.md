# typst4janim

Exports the elements of a compiled Typst page to JAnim.

- `src/` is the verified library: the collector that numbers the page's
  elements, indexes them into label groups, stores shared data once per id
  and keeps the warnings (`collect.rs`); the warnings and their names
  (`warnings.rs`); the page-count rule with its error message (`export.rs`);
  and the trusted contracts of the two `indexmap::IndexMap`s the collector
  uses (`maps.rs`).
- `app/` is the Python extension around it: compiling with Typst, the walk
  over Typst's frame tree, the floating-point geometry (transforms, colours,
  quadratic paths) and the Python objects.
- `tests/` exercises the library.
