# corpus-introspect

One command that answers "what am I, right now?" for a wintermute fleet: it
queries the five corpus facets (`corpus-attest`, `muster`, `corpus-converge`,
`corpus-arbiter`, `wm-tether`) and renders one picture — text, a `WholeSelf`
JSON record, or a self-review block.

Layout:

- `src/` — the verified library (Verus):
  - `text.rs` — string order and equality, decimal rendering;
  - `json.rs` — the JSON model the facet readers work on;
  - `model.rs` — the `WholeSelf` record, its views, the facet-status table;
  - `facets.rs` — reading each facet's reply and recording its status;
  - `merge.rs` — merging the facets into the sorted node list;
  - `render.rs` — the text and self-review layouts.
- `app/` — the binary: runs the facet CLIs, parses their JSON with
  serde_json, reads the host name and clock, and prints.
- `tests/` — the acceptance scenarios and unit tests, run against the library.
