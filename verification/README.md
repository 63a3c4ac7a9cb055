# garbelour

Sorts the hunks of a git diff by how much attention they need: `review`, `skim`
or `skip`. Rules on paths and on syntax trees make findings on each hunk; a
language model may be asked about the hunks that no rule speaks of; the findings
are joined into items and rendered for a terminal, as the comment on a pull
request, or as JSON.

## Layout

- `src/` is the library, verified with Verus.
  - `diff`, `path`, `lang`: what git prints, taken apart.
  - `ast`: syntax trees, read off tree-sitter.
  - `classifiers`, `classify`: the rules, and the pipeline that runs them.
  - `consolidate`, `merge`: findings joined into items.
  - `llm`: requests to a language model, and its replies.
  - `render`, `wire`, `json`: the three outputs, and JSON documents.
  - `github`: requests about comments, and the event of a pull request.
  - `run`, `cli`, `config`: the steps of one run, its flags and its settings.
  - `text`, `order`: texts as sequences of characters, and a stable sort.
- `app/` is the program around it: arguments, files, git and HTTP.
- `tests/` runs the library with the real crates linked.

## What is trusted

The functions marked `external_body` and the one `assume_specification`. Each is
about one function of tree-sitter, globset, serde_json, sha2, hex or std, or about
the accessors of one of their types, and its doc comment says what is claimed.

## Models

OpenAI and Ollama have a default model in the library. The library takes the one
for Anthropic from its caller; the program reads it from `ANTHROPIC_MODEL`.
