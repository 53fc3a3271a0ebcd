# lalrpop_lsp

A language server for [LALRPOP](https://github.com/lalrpop/lalrpop) grammars,
whose document model is verified with Verus.

## Layout

- `src/` is the verified library:
  - `line_index` converts between UTF-8 byte offsets and LSP positions
    (lines and UTF-16 columns); `round_trip` proves that the two
    conversions undo each other.
  - `source` holds a text with its line index and turns LALRPOP's error
    locations (lines split at `\n`, byte columns) into diagnostics.
  - `offset_map` carries offsets of the last analysed text over to the
    current text through the prefix and suffix that the two share.
  - `document` is an open document: its current text, the latest valid
    analysis, and the rules by which updates replace one or keep the other.
  - `server` answers hover, go-to-definition, references, document symbols
    and semantic tokens from a document; `semantic_tokens` classifies and
    encodes the tokens.
  - `server_command` decides how an editor starts the server.
  - `analysis`, `types`, `text` and `sort` hold the plain values and the
    helpers the rest builds on.
- `tests/` runs the library on concrete grammars.
- `app/` is the server program: the LSP transport, LALRPOP's analysis of the
  grammar, and the Zed extension entry point, converting to and from the
  library's types.
