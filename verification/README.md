# terminal-svg

Renders terminal output (a captured ANSI stream or an asciicast recording)
as an SVG screenshot or animation that carries its own source.

## Layout

- `src/` — the verified library (Verus). Terminal bytes are interpreted
  through `avt` and reduced to styled runs (`term`), colours resolve through
  themes (`theme`), recordings are read, cleaned and written (`cast`,
  `edit`), the SVG's embedded source block is framed and recovered
  (`embed`), and the font is subset to the glyphs a document uses (`font`).
  Each public function states what it returns; the laws (round trips,
  idempotence, precedence, layout preservation) are public proof functions.
- `app/` — the `terminal-svg` program around the library: argument and
  config handling, file, PTY and HTTP I/O, and the floating-point geometry
  of the SVG renderer and the animation timeline.
- `tests/` — tests of the library's public functions.

Calls into outside crates (`avt`, `regex-lite`, `flate2`, `base64`,
`ttf-parser`, `allsorts`, `ttf2woff2`) sit behind small trusted wrappers in
`src/`, each documented with what its contract claims of the crate.
