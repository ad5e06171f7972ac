# rgit

A tiny Git-style object store. Blobs, trees and commits are framed as
`<kind> <length>\0<body>`, named by the SHA-1 of those bytes in lowercase hex,
compressed with zlib and stored under `.rgit/objects/<2 digits>/<38 digits>`.
A blob gets the same name as in Git; trees and commits are written in a text
layout of their own, so their names differ from Git's.

- `src/` is the library, verified with Verus: object framing and reading
  (`store::object_store`), names and their place on disk (`domain::hash`),
  the blob, tree and commit formats with their parsers (`domain::blob`,
  `domain::tree`, `domain::commit`), the working-tree status
  (`domain::status`) and how it relates to a fresh snapshot
  (`domain::snapshot`), the branch reference (`store::repo`), the text helpers
  they share (`text`) and the flat interface of `objects`.
- `app/main.rs` is the `rgit` command line: argument parsing, the file system
  and printing.
- `tests/` runs the library on concrete values.
