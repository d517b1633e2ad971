# inputx

The core of the Inputx input method, written in Verus: its dictionary
formats, user stores, text mappings and corpus pipeline, each with a
contract that Verus proves.

## Layout

- `src/` — the verified library.
  - `fsa/` — the minimal acyclic automaton (builder, reader, sorted
    code dictionary).
  - `codec.rs`, `idf.rs`, `idf_build.rs`, `idf_law.rs` — the IDF
    dictionary file: header and records, reader, builder, and the
    read-after-build law.
  - `ngram.rs`, `ngram_build.rs`, `ngram_law.rs` — the n-gram table:
    reader, builder, and the read-after-build law.
  - `l0.rs` — the per-user pin store and its file format.
  - `pool.rs`, `text.rs`, `le.rs`, `digest.rs` — shared byte helpers and
    the SHA-256 call.
  - `session.rs`, `wubi.rs`, `pinyin.rs`, `jp/`, `locale/`, `rules/`,
    `input_mode.rs`, `prior_correction.rs`, `rank.rs` — key routing,
    the wubi engine, Japanese lookups and candidate merge, punctuation
    and width mappings, rule engines.
  - `tsv.rs`, `ingest_parse.rs`, `jieba.rs`, `ingest.rs`,
    `library_sort.rs`, `corpus_text.rs`, `nihongo_data.rs` — the corpus
    pipeline: parsing, de-duplication, the diff against the library,
    library order, and the text the tool writes.
- `tests/` — tests run against the compiled library.
- `app/` — the `corpus-digest` command and the file and process-wide
  plumbing around the library.
