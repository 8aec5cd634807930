# mf2_tools

Tools for MessageFormat 2, verified with Verus: a parser with error recovery
that turns any text into a syntax tree and diagnostics, a printer that
formats the tree, the analysis of variables (scope, completions, rename,
quick fixes, semantic tokens), the line information of source texts, and a
parser for resource files of messages.

## Layout

- `src/` is the library. Every function in it is verified; the contracts
  state what each one returns over spec functions of the text and the tree.
  - `parser.rs`, `ast.rs`, `diagnostic.rs`: the message parser, its tree
    and its diagnostics.
  - `printer.rs`: formatting of a parsed message.
  - `scope.rs`, `completions.rs`, `requests.rs`, `semantic_tokens.rs`,
    `ast_utils.rs`, `lsp_diagnostics.rs`: the analyses that editors use.
  - `text.rs`, `lines.rs`, `strings.rs`, `chars.rs`, `char_indices.rs`:
    locations, lines and UTF-8 / UTF-16 positions.
  - `resource.rs`, `resource_document.rs`: resource files and their
    diagnostics.
  - `lifecycle.rs`: the decisions of the language server, one message at a
    time.
  - `plugin.rs`, `fixtures.rs`: the formatter plugin and the fixture format.
- `tests/` runs the library on concrete inputs.
- `app/` is the language server: it reads and writes messages and hands the
  library plain values.

Laws that span several functions are public proof functions whose names
begin with `law_`.
