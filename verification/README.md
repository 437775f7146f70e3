# arena-alligator

Arena allocators for byte buffers, with their behaviour stated as Verus
contracts and proved.

`FixedArena` hands out slots of one size. `BuddyArena` hands out power-of-two
blocks that split on demand and merge on release. Both give a `Buffer` that is
written by appending and then frozen: frozen bytes can be read in place until
they are released, and the slot or block goes back to the arena.

## Layout

- `src/` is the verified library. Arenas are plain values that are held
  exclusively; a buffer names its arena in each call.
  - `bitmap`, `blocks`: which slots and blocks are free.
  - `arena`, `buddy`: the two arenas; `buffer`, `handle`: what they hand out.
  - `fixed_builder`, `buddy_builder`, `geometry`, `sizing`, `config`,
    `unfaulted`: how an arena is laid out and built.
  - `waiters`, `async_alloc`: who waits for memory, and who is woken.
  - `hazmat`: regions that are filled by offset and frozen by range.
  - `memory`, `ext`, `error`, `metrics`, `nonzero`, `bits`: the ground they
    stand on.
  - `laws`, `histories`: what holds across operations, and after any sequence
    of calls.
- `app/` puts the arenas behind a lock, gives memory back on drop, reads frozen
  bytes in place through `bytes::Bytes`, and waits with tokio.
- `tests/` runs the library.
