# bscc

A line counter with a structural-metrics tier, as a verified library and a
thin command-line program around it.

- `src/` is the library. Every function in it carries a contract that is
  proved: the declarative tokenizer (`tokenizer`), the line classifier and
  the capture arithmetic of the tree-sitter tier (`lines`, `ast`), the
  language registry (`registry`), aggregation of per-file metrics
  (`report`, `totals`), the exporters' text (`csv`, `html`, `table`,
  `sarif`), the git log reader (`git`), the LSP diagnostics (`lsp`) and
  what the subcommands compute (`cli`). Calls into outside crates
  (tree-sitter, memchr, num-format, owo-colors) go through small trusted
  wrappers whose contracts say what is assumed of them.
- `app/` is the program: argument parsing, the file walk, reading files,
  running `git`, the LSP transport, JSON and SARIF serialisation and the
  floating-point cost estimate.
- `tests/` runs the library on concrete inputs.

At start-up the program reads the regex tier's language table from
`data/languages.toml` and each tree-sitter language's metrics query from
`queries/<language>/metrics.scm`.
