# aaf

A verified Verus library for reading AAF (Advanced Authoring Format) files
and the Microsoft compound file container they are stored in, together with
the pieces of writing that stand on plain values: raw DNx and WAV essence
headers, rationals and timestamps, storage names, and fixed sources of times
and identifiers.

## Layout

- `src/cfb/` — the compound file: header, sector tables, directory entries,
  the red-black trees of names, streams, and walks over the directory.
- `src/property.rs`, `src/object.rs` — property streams, collection indexes,
  and AAF objects read from their storages.
- `src/metadict.rs`, `src/value.rs` — the meta dictionary a file carries and
  the decoding of property values against its types.
- `src/reader.rs` — `Aaf`, reading objects by class and property name.
- `src/write/` — what the writer reads and checks before it writes.
- `app/` — reading from readers and files, the system clock and seeding of
  random identifiers: what the library leaves to its environment.
- `tests/` — tests run against the compiled library.

Every function in `src/` carries a contract that Verus proves; the public
`lemma_*` proof functions state the library's laws (text round trips of
identifiers, rationals and timestamps, the order of names).
