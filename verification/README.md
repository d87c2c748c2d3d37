# svg_strip

Aggressive SVG minification whose passes carry machine-checked contracts and proofs.

`SvgStripper` reads a document with `xmltree`, runs the configured passes (metadata,
comments, hidden elements, unused ids, empty groups, white space, color shortening,
decimal rounding, inline/component/icon transformations) and writes a single line back.

## Layout

- `src/tree.rs` – the library's own document tree and its mathematical model.
- `src/xml.rs` – the calls into `xmltree` (reading, writing) behind trusted wrappers.
- `src/text.rs`, `src/css.rs` – text helpers and the CSS subset that component mode reads.
- `src/cleanup.rs`, `src/references.rs`, `src/component.rs` – the passes, each with a
  spec function that states its result.
- `src/stripper.rs` – configuration and the pipeline (`prepare`, `optimize`, `strip_str`).
- `src/queries.rs` – the texts whose numeric meaning the pipeline depends on.
- `src/laws.rs` and the `law_*` proof functions elsewhere – properties of the library as a
  whole (removed nodes stay removed, empty-group removal is a fixed point, ...).
- `app/main.rs` – the command line.

## Numbers

The library holds no floating point. Two passes depend on numbers: hidden elements
(`opacity` that reads as zero) and decimal rounding. `SvgStripper::number_queries` lists the
texts involved; the caller answers with `NumberFacts` (which of them read as zero, and the
rounded form of each numeric attribute value) and passes them to `strip_str`. The command
line computes these answers with `f64`.
