# beholder

A structural index of a codebase: per-file symbols and complexity (phase 1),
cross-file resolution, a code graph with integrity checks, reachability and
coupling analysis, revision deltas and review output.

Layout:

- `src/` is the library, written and proved with Verus. Each public function
  states what it returns in its `ensures`; the laws that relate several
  functions stand as public proof functions beside them. Calls into
  tree-sitter, the SCIP decoder, SHA-256 and a few std functions go through
  small trusted wrappers whose doc comments say what is believed of them.
- `tests/` runs the library on concrete inputs.
- `app/` is the command line: it reads files and repositories, decodes
  configuration, writes stores and reports, and hands everything it reads to
  the library.
