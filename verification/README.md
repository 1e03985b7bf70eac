# i18n_version_core

Content-derived version strings for sets of JSON message catalogues: the
SHA-256 digest of the selected files (each contributing its relative path, a
zero byte and its contents, in path order), in lowercase hexadecimal, cut to
1..=64 characters.

- `src/` is the verified library: the error type and its messages
  (`error.rs`), the hash and its rendering (`hash.rs`), the stable sort by
  path (`order.rs`), discovery, validation and scanning of files
  (`scanner.rs`), text helpers (`text.rs`) and the streaming computation
  `VersionRun` with the laws relating it to the buffered path (`lib.rs`).
- `app/` is the Node.js binding: it walks the directory tree, reads files and
  hands what it found to the library.
- `tests/` exercises the library on in-memory trees.
