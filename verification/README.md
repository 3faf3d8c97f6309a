# tessera

A PCB autorouter core written in Verus. Every function of the library is
proved against its contract, except the small trusted wrappers around
std's `String::push`, `char::is_alphanumeric` and `str::to_lowercase` and
around serde_json's parsing and value accessors (in `src/text.rs` and
`src/kicad/parser.rs`), whose contracts are believed, not proved.

- `src/geom` — exact integer-nanometre geometry: points, the orientation
  predicate, segment/circle/polygon clearance and intersection tests.
- `src/model` — the board model (layers, nets, net classes, pads, tracks,
  vias, rule areas) and the scan for unrouted connections.
- `src/drc` — net-class clearance checking between every pair of copper
  items, and `.kicad_dru` custom-rule track-width checks.
- `src/kicad` — the S-expression reader, `.kicad_pcb` board extraction,
  the fixture writer, and `.kicad_dru` rules (file syntax, condition
  language, evaluator); `fixture_layout` and `readback` prove that a
  written fixture's board text reads back as the board it was written
  from, and that its project text gives back the board's net classes
  wherever serde_json reads that text as listing them (what serde_json
  makes of a text is trusted, not proved).
- `src/detail` — the grid detail router: obstacle bitmaps, least-cost A*
  with via moves, and route extraction into tracks and vias.
- `src/global` — multi-pin net decomposition (Prim's spanning tree) and
  PathFinder negotiated congestion on a coarse grid.
- `src/engine` — whole-board routing: negotiation, detail routing and
  commit, never touching existing copper.
- `src/text` — exact decimal parsing and formatting.
- `app/` — the `route` command line (file reading and writing).
- `tests/` — scenarios for each module.
