# rustque

A persistent queue of byte values kept in one file, and the byte format and
streaming reader it is built on, verified with Verus.

- `src/parser/writer.rs`: the record format: a start flag, the key length and
  key, the value length and value, each part introduced by a three-byte
  marker, and an end flag.
- `src/reader/`: the reader that maps a stored area into records (by key),
  free regions and corrupt regions, reading it piece by piece, and
  hands out free space for new records (`fill`), gives it back (`clear`) and
  adds free bytes after the mapped area (`expand`). `model.rs` states what
  each step of reading does; `format.rs` and `area.rs` prove what a write
  gives back when read; `pieces.rs` and `chunks.rs` prove that a stored area
  handed over in pieces reads as it does at once, for pieces that do not end
  one or two bytes into a record with fewer than seven bytes waiting (there
  the start flag is missed, as the search for it resumes past it); where a
  piece ends inside a record past its start flag, the proof covers records
  whose key and value are not empty. `laws.rs` proves how the free space
  moves.
- `src/que/`: the decisions of the queue: how a stored queue is loaded in
  chunks, which items it holds, what adding and removing an item does to the
  map, and the benchmark settings and report columns.
- `src/workers.rs`: big-endian numbers (through `byteorder`) and short strings.
- `app/`: the program around it: files, tokio tasks and flume channels.
