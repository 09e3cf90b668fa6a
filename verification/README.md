# lemma

Lookup-coverage helpers for a Modern Greek dictionary, verified with Verus.

- `src/accent.rs` – syllable nuclei of monotonic Greek words (vowel digraphs,
  ι-synizesis), the stress position counted from the end of the word, and the
  enclitic double-accent spelling of proparoxytone words
  (χαρτοφύλακα → χαρτοφύλακά), with the laws that tie them together.
- `src/punctuation.rs` – the punctuation-attached variants of a headword form.
- `src/utf16.rs`, `src/label_order.rs` – UTF-16 code units of labels and the
  raw code-unit order in which the dictionary index stores them.
- `src/text.rs` – character-level helpers: substring search, quoted strings,
  decimal numbers, line splitting.
- `src/index_dump.rs` – analysis of a decoded index dump: entries, grouping by
  record, order violations within records, target lookups.
- `app/main.rs` – the `verify_indx_order` command: reads a `.mobi` through
  kindling's `mobi_dump`, runs the analysis and prints the report.
