# gototranscoder

Reads and writes ESBMC goto binaries ("GBF" files), verified with Verus.

- `src/irep.rs`: the `Irept` tree, its mathematical value `IrepV`, structural
  equality and deep copy. Named children and comments are held in an
  `IrepMap`, whose entries stay sorted by name (a type invariant), so two
  nodes with the same named entries are equal whatever order they were set in.
- `src/names.rs`: the order of names and setting a named entry, which keeps
  named children and comments sorted.
- `src/gbf.rs`: the format as mathematical functions: what the writer emits
  (`serialize_goto`) and how bytes are read (`parse_goto`).
- `src/bytewriter.rs`, `src/bytereader.rs`, `src/esbmc.rs`: the writer and the
  reader, each proved to compute those functions.
- `src/roundtrip.rs`: reading back what was written gives what was written
  (`lemma_goto_roundtrip`), and each string and node is written once.
- `src/readback.rs`: everything read is well formed, so reading, writing and
  reading again gives the same contents (`lemma_read_write_read`).
- `src/irep_json.rs`: rendering a node as JSON with the `json` crate.
- `app/`: the command line program and the file reading and writing.

The conversion of CBMC goto binaries to ESBMC's format is not part of this
crate; the command line program reads and writes ESBMC goto binaries and
shows their nodes as JSON.
