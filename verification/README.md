# futhark-f2

An instrument for deciding whether an EPUB reader can round-trip books
losslessly, with its contracts proved by Verus.

A round-trip is judged by classifying every difference between a source
container and its rewrite before anything is counted: entry content,
container metadata, and structural claims a container makes about itself are
different findings. Over a corpus the results are summarised, and the verdict
refuses to read a clean run on a normalized or narrow corpus as a pass. A
feature catalogue records what a corpus holds in three states, and its floor
becomes a requirements list only through an explicit, reasoned widening.

## Layout

- `src/` — the verified library. `taxonomy`, `classify` and `xmlcmp` are the
  classifier; `manifest`, `report`, `verdict`, `family` and `normalization`
  summarise and judge a corpus; `catalogue`, `detect`, `scan`, `floor` and
  `provenance` are the feature catalogue; `fixtures`, `fixture_cases` and
  `selftest` build containers whose classes are known by construction and
  check the classifier against them; `zipread`, `zipwrite`, `xml` and
  `digest` hold the calls into zip, quick-xml and sha2; `probe` is the
  custom-scheme probe server's routing; `seed` is the planted-defect parser.
- `tests/` — the library on concrete values.
- `app/` — the `f2` command line: file I/O, the reader under test (rbook),
  JSON output, and the summary report, whose percentages are floating point.
