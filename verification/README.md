# kv_store

A key–value store that keeps all of its data in one append-only byte log,
with a small note-taking layer on top, written in Verus: the library in
`src/` is verified, the file and terminal code in `app/` is ordinary Rust.

## The store

* Keys are texts or integers (`Key::Text("5")` and `Key::Integer(5)` differ);
  values are integers, bools, texts or blobs.
* Every value is appended to the log as an entry
  `[length u64 LE][CRC-32 u32 LE][tag u8][payload]`; the index maps each live
  key to the offset of its latest entry. Overwriting appends ("latest wins"),
  deleting drops the key from the index, `compact` rebuilds the log from the
  live entries only.
* Reads borrow text and bytes from the log; a damaged entry is reported as
  `Corrupted` with the reason (checksum mismatch, truncation, bad tag, ...).
* Iteration yields the live entries in log order.
* A store persists as an image of key/value entry pairs and loads back from it,
  with the same reads and the same iteration order. Loading an image that
  ends inside an entry (an incomplete header, or a length field past the end)
  reports `Corrupted`; one that ends right after a key reports `UnexpectedEof`.

## Layout

* `src/format.rs` — the entry format: encoding, decoding, parsing.
* `src/store.rs` — `KvStore`, its model (`StoreModel`), iteration,
  persistence to and from byte images, compaction.
* `src/laws.rs` — what holds across operations: reads give back writes, the
  log stays intact, a persisted image loads back into a store that reads
  every key the same and iterates in the same order.
* `src/notes.rs` — notes stored as `bincode` blobs under integer keys.
* `src/pageviews.rs` — reading page-view dump lines and summing their counts.
* `src/editing.rs` — the text of a note as handed to an editor, and reading
  the edited text back.
* `src/browse.rs` — the notes browser's decisions: which notes the list shows
  (search by lower-cased title or tag, sort by id, title or update time,
  optionally reversed), and the browser's next state and requested action
  after each key or after an action's outcome.
* `src/checksum.rs`, `src/values.rs`, `src/error.rs` — checksums, keys and
  values, errors.
* `app/` — files, the external editor, the notes browser's loop (drawing,
  key reading and the store operations, over any terminal backend; the
  original's ratatui/crossterm front end and its "favorite" marks, which the
  notes library never had, are not part of it), the notes command line, the
  page-view import, printable errors.
* `tests/` — tests of the library.
