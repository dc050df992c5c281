# blog_server

A small self-hosted blog server with a verified core.

- `src/` is the library, verified with Verus: Base64 and percent decoding,
  HTML escaping and the whitelist sanitiser applied to rendered Markdown,
  slugs and descriptions of posts, the SQL of the request-log query,
  request classification, admission control under memory pressure,
  routing and authentication decisions, configuration parsing, and the
  text logic of the `blog_hub` post manager. Each public function states
  what it returns in its `ensures`; the `law_*` proof functions state
  properties that span several calls.
- `app/` is the program around it: the two HTTP listeners (axum on tokio),
  the SQLite store (rusqlite), CPU affinity (libc), and the interactive
  `blog_hub` menu (run when the binary is invoked under that name).
- `tests/` runs the library on concrete values.

Calls into outside crates that the logic needs (pulldown-cmark, serde_json,
sha2, and a few std functions) stand behind small trusted wrappers whose
doc comments say what is assumed of them.
