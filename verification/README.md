# logic_simulator

A gate-level digital logic simulator whose core is verified with Verus.

Circuits are built from NAND gates, inputs, outputs, clocks and nested chips.
A chip blueprint is compiled into a flat network of primitive gates, and the
network is simulated event by event: a gate is re-evaluated only when one of
its inputs changes, and a network that keeps oscillating is stopped after a
step limit.

Layout:

- `src/` — the verified library (see the module list in `src/lib.rs`):
  simulator, compiler (with a check that a library can be compiled, and the
  proof that a chip of NAND gates compiles to, and settles into, what its
  wiring says), clocked engine, inspection of nested instances, the
  editor's canvas logic (compiling the canvas, packaging a canvas into a
  chip, unpacking a chip onto it, deleting a selection), undo/redo, the
  global chip library and the starter chips.
- `tests/` — tests of the library.
- `app/` — a small command-line program around the library: reading
  project files, reading and writing the global library, importing a
  project's chips into it, and printing a project's canvas packaged as a
  chip or the starter chips as JSON.
