# spark-dump

A command-line viewer for lucko spark uploads (`.sparkprofile`,
`.sparkheap`, `.sparkhealth`, or a bytebin code): it dumps sampler profiles
(all / flat / sources / flame / summary views, filters, threads, time
windows, plugin occupancy), heap histograms, health reports and metadata as
text or JSON.

## Layout

- `src/` — the library, verified with Verus: reading the window selection
  and the filter options, the kind of an input, the call graph built from an
  upload (numbering, parents, plugin attribution), which nodes the search
  and filters keep visible, the flat view's walk, plugin attribution, the
  metadata header, heap and health selections, and the laws in
  `src/laws.rs`.
- `app/` — the `spark-dump` program: command-line parsing (clap), decoding
  the uploads (prost), reading and writing files, JSON output (serde), and
  the parts of the views that add up and compare sample times, which are
  floating point.
- `tests/` — tests of the library on concrete values.
