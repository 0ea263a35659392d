# agtmls_lsp

Live security diagnostics for `AgtMLS` agent skills, in the editor: a
Language Server Protocol server whose handlers are verified with Verus.

## Layout

- `src/` — the verified library.
  - `lib.rs`: the server state and `Server::handle`, which decides for each
    JSON-RPC message how the open documents change and what the message is
    answered; findings as diagnostics (with an explicit warning, never an
    empty list, when no rule set is loaded); document symbols (Markdown
    headings outside fenced code blocks).
  - `documents.rs`: the open documents, by URI.
  - `completion.rs`: frontmatter key and `allowed-tools` completion.
  - `actions.rs`: code actions, which only ever resolve a finding in the
    safe direction (narrow a grant, never widen a policy).
  - `framing.rs`: `Content-Length` framing, as a reader state machine and a
    writer, with the round trip proved.
  - `text.rs`: lines and whitespace as `str::lines` and `str::trim` see them.
- `app/` — the stdio binary: reads and writes frames, loads the rule set,
  runs its analyzer and the skill's structural rules where the library asks
  for findings, and converts between JSON and the library's types.
- `tests/` — handler tests and tests of each piece on concrete values.

Set `AGTMLS_SPEC` to a checkout of the specification. Without it the server
still runs, but it publishes a warning rather than an empty diagnostic list:
unchecked is not the same as clean.
