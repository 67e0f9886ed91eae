# gm_core

A ground-model file is one SQLite database holding the full revision history
of every 1D ground model and material it contains, plus a plain SQL view of
the checked-out revision that any tool can read.

`src/` is the verified library: the rules of the format, each function with a
contract proved by Verus.

- `canon`: canonical JSON (RFC 8785) and content addressing; the canonical
  text does not depend on the order of object members.
- `commit`: commit manifests, their canonical text and their id.
- `wire`: the sync bundle format, which decodes back to what was encoded.
- `store`: history order, reachability, revision names, working-tree
  differences and document timestamps.
- `sync`: how two histories relate, the three-way merge of documents, the
  decisions of pull, push and merge, and what a bundle must carry.
- `exchange`, `validate`, `vocabulary`, `model`: importing documents, the
  findings of validation and the vocabulary of constitutive kinds.
- `net`, `web`, `pages`, `render`, `workspace`: the text of requests, replies,
  pages and listings, and which file a command works on.

`app/` is the `gm` command line around it: the SQLite store, the HTTP server
and client, and everything that formats floating-point values.

`tests/` runs the library on concrete values.
