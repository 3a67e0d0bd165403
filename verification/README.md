# pretty_lang

A language-agnostic pretty-printer (Wadler's "A Prettier Printer", in
Lindig's stack-based linear form), verified with Verus.

Layout:

- `src/model.rs` — the abstract document `DocV`, the layout state (`SFrame`
  stacks), and the spec functions `fits`, `layout` and `spec_render` that
  define what rendering produces; `doc_layout`/`spec_render_documented`,
  the same layout with each group decided directly by its rule (flat
  exactly when it holds no hard line and, laid flat, the line it starts on
  fits); also the one-line form `flat`, the broken form, the fold models of
  `concat`/`join`, and the debug form `debug_model`.
- `src/lit.rs` — text leaves whose stored width always equals their number of
  Unicode scalars (a type invariant), and the `IntoText` sources.
- `src/doc.rs` — the `Doc` type and its combinators, each with the model of
  its result; `render`/`render_into`; the iterative destructor.
- `src/render.rs` — the executable engine (`layout_exec`, `fits_exec`),
  proved equal to `spec_render`; widths above `isize::MAX` are capped.
- `src/debug.rs` — the iterative structural debug string.
- `src/laws.rs` — properties proved over the model: associativity of
  `append`, `nil` as identity, idempotent `group`, additive `nest`; a group
  is laid flat exactly when it holds no hard line and the output line it
  starts on fits; a group holding a hard line never fits; more room never
  turns a fit into a misfit; fitting groups render as their one-line form;
  group-free documents ignore the width; no break point is ever invented.
  Each law states its own preconditions (some assume newline-free texts or
  one-line forms no longer than `isize::MAX`).
- `app/lib.rs` — hands the rendered text to `core::fmt::Write` and
  `std::io::Write` sinks.
- `tests/` — unit tests of each combinator and scenario tests of the laws.

Layout decisions worth knowing:

- The look-ahead for a group scans the group flat, then what follows it in
  the mode it will have: a group queued after the tested one is scanned
  broken, so the line ends at its first break. A hard line or a long line in
  a later group therefore never breaks an earlier group that fits: a group
  `a line b` followed by a group `c hardline d` renders as `a bc` and `d`.
  Groups nested inside a flat group are flat.
- A width above `isize::MAX` is taken as `isize::MAX`, so a document fits
  there exactly as it would at the largest representable width.
