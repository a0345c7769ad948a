# nudgec

The front end and tooling of the Nudge language compiler, written in Verus.
Every function under `src/` is verified against its contract; `app/` is the
command-line driver: file, stdio and local HTTP I/O (the trace viewer's
accept loop and page), nothing else.

Layout of `src/`:

- `text`, `digits`, `decimal`: strings, decimal digit strings, and the
  decimal model of the numbers JSON and traces carry.
- `lexer`, `grammar`, `parser`, `ast`: source text to tokens with byte spans,
  tokens to items; `grammar` states the language as spec functions that the
  parser is proved to follow.
- `typing`, `check`: the type and effect checker (`typing` states the rules,
  `check` implements them).
- `cost`: the static cost report (llm call sites, repair worst case, costs
  through called fns).
- `lint`: prompt-quality warnings (W0001–W0004).
- `json`: JSON values, parser and writer.
- `lsp`: the language server: diagnostics, hover, definition, completion,
  and the message dispatcher with its document store.
- `dap`: the trace debugger's request dispatcher.
- `tracecheck`, `tracediff`, `traceview`: trace validation against the v1
  schema, trace comparison, and the viewer's request routing and HTTP
  framing.
- `a2a`: agent-card export.

Laws of the library are public proof functions named `law_*`.
