# trashd

A recycle bin for the command line: deletions become moves into the FreeDesktop trash,
and can be undone.

- `src/` is the library. Every function in it is verified with Verus: what a pattern
  matches, how a `.trashinfo` file is written and read, which trash directory an item goes
  to, in which steps it is moved and restored, what the retention limits remove, how a
  trapped call is answered, and what the `rm` command line means. Functions named `law_...`
  state what holds of the library as a whole.
- `app/` is the program around it: `trash`, `rm`, `trashd-exec` and `trashd-daemon`, told
  apart by the name they are called by, and the library that is loaded into other programs.
- `tests/` holds the tests.

The calls into other crates that the library makes (`chrono`, `url`, `sha2`, `xxhash-rust`,
`zstd`) stand in small functions whose contracts are taken on trust; the comment above each
says what is claimed.
