# union_code

A compact intent router. A dictionary of verbs (each with a one-byte operation code)
and nouns (each with a two-byte payload id) is compiled into a flat ROM image holding
an Aho–Corasick automaton; running free text through it yields a three-byte
`CompressedIntent` (the latest operation code and the latest payload id met), or the
fallback code `0x06` when either is missing.

The library is written in Verus. Every function in `src/` carries a contract that
Verus proves, except three small wrappers around std functions (`char::is_whitespace`
and `from_str_radix` for `u8` and `u16`), whose contracts are trusted.

## Layout

- `src/rom.rs` — the ROM format, the automaton as spec functions (`spec_run`,
  `spec_parse`, `spec_halts`), and `FstEngine`: `validate_rom` (exactly the structural
  well-formedness of the image), `parse_stream` (exactly `spec_parse`, on any ROM: at
  each byte the outputs are gathered along the failure chain, so every word ending there
  is seen, and a failure chain that loops is cut), and `check_fail_links` (a check under
  which no failure chain loops).
- `src/translator.rs` — `UnionCode::decode`: the intent, or `Err(NOT_FOUND)`.
- `src/dictionary.rs` — what a dictionary means, independently of any ROM: the longest
  dictionary-path suffix of the text read so far, and at each byte the codes of every
  word that ends there (the longest coded one giving each code; an empty word is
  never seen).
- `src/compiler.rs` — the dictionary compiler (trie, breadth-first failure links,
  serialisation), proved to produce a well-formed image on which every run ends and
  `spec_parse` equals the dictionary's meaning, for images up to 64 KiB; an image
  takes at most ten bytes per word byte, plus ten.
- `src/dictionary_text.rs` — the `KIND,WORD,CODE` text format of dictionaries, read
  line by line, and its compilation.
- `src/default_rom.rs` — the ROM image of the default dictionary.
- `src/laws.rs` — properties of the automaton over every ROM and input, and of the
  dictionary meaning (every word ending at a byte is seen; without nested words, the
  last verb and the last noun to occur are kept).
- `app/main.rs` — the build tool: reads `dictionaries/**/*.txt`, groups the files by
  stem, and writes `<stem>_rom.rs` holding `<STEM>_ROM_MATRIX` under `OUT_DIR`.
