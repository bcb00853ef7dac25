# agent_rules

Deterministic, idempotent application of configuration blocks to their
target files: a marker-delimited block in a markdown file, or
remove/ensure entries of an array in a JSON file.

- `src/` is the library, verified with Verus. Every function there is a
  function of its arguments: block-file frontmatter, target path
  expansion, the markdown and JSON edits (with their idempotence laws in
  `markdown_laws`, `json_laws` and `jsontext`), JSON files as text
  (serde_json reads and prints them behind trusted wrappers in
  `jsontext`), command-line parsing and the self-upgrade decisions.
- `app/` is the command-line program around it: reading and writing
  files, the environment, loading the block files, and the download
  steps of `upgrade`.
- `tests/` runs the library on concrete inputs.
