# compass-core

The core of Compass, a personal knowledge service over an Obsidian vault:
notes carry a three-part score in their frontmatter, and the service keeps an
index, rewrites scores, and proposes tags and links that a user confirms.

- `src/` is the library, verified with Verus: frontmatter splitting and score
  block rewriting, tag reading and writing, content hashes that ignore the
  score block, guarded metadata patches, suggestion ids and status
  transitions, lexical tag candidates, entity ids, report windows, request
  defaults, server settings, the file-watch batching state machine, and the
  cooldown rules of score triggers. Calls into `regex`, `sha2`, `chrono`,
  `chrono-tz` and `serde_yaml` stand behind small trusted wrappers whose
  contracts are stated next to them.
- `app/` is the program around it: configuration, the SQLite index, the HTTP
  server, the file watcher and decay scheduler loops, and the floating-point
  score arithmetic.
- `tests/` exercises the library on concrete values.
