# chromelight

The engine-side logic of a small multi-process web browser, written in Verus: every
function in `src/` carries a `requires`/`ensures` contract that Verus proves.

## Layout

- `src/dom/` – the arena DOM (well-formedness of parent/child/sibling links proved as an
  invariant of every mutation), traversal, and the html5lib-style tree dump.
- `src/html/` – encoding sniffing (BOM, transport label, the WHATWG `<meta>` prescan,
  UTF-8 default), decoding through `encoding_rs`, and the tree-construction sink that
  html5ever drives.
- `src/layout/` – app units, geometry, whitespace processing, box-model arithmetic
  (width/margin/height resolution, margin collapsing, relative offsets), the box tree and
  its dump, the block formatting context (an explicit-stack walk whose every step is
  related to the previous by a spec), the inline placeholder and the shaped-line
  fragment builder, glyph-run grouping and the fragment dumps.
- `src/gfx/` – integer alpha compositing, glyph masks and their budgeted cache, pixel
  snapping, clip stacks, border strips and the glyph blit.
- `src/fonts/` – the bundled font database and its registration checks.
- `src/ipc/` – process messages, receiver-side validation, codec framing rules and the
  handshake decisions.
- `app/` – the process entry point: argument parsing, the html5ever driver, the postcard
  codec, the floating-point pixel conversions and the computed style with its
  percentages, which it resolves into the lengths the box tree carries.

Laws that relate several operations are public proof functions named `lemma_*` next to
the functions they speak of.
