# stormforge-core

The core of StormForge, a mod manager for the game Stormworks, written in Verus. The
library's functions carry contracts that Verus proves. The few calls into the standard
library and outside crates (zlib, base64, XML, JSON, lowercasing) go through small
`#[verifier::external_body]` wrappers whose contracts, stated from those crates'
documentation and source, are believed rather than proved.

## Layout

- `src/` — the verified library.
  - `store`, `strmap`: the persisted state, and the sorted string-keyed map it is built on.
  - `playlists`, `actions`: what the commands do to the store (playlists, toggling,
    adding mods, choosing what to apply or share).
  - `apply`: the differential rom apply: the plan from the last manifest to the desired
    rom, its statistics, and the desired rom built from the vanilla backup and the active
    mods' files.
  - `apply_step`: the steps of an apply as a step function, with the full-rebuild safety
    net; the front end carries out each step on disk.
  - `share`: share strings (`stormforge-playlist:` + base64 of a zlib stream of JSON),
    and importing one as a playlist.
  - `metadata`: reading a mod's `Metadata.xml`.
  - `steam`, `rom`, `paths`: finding the game through Steam's `libraryfolders.vdf` and
    resolving its `rom` directory.
  - `i18n`, `format`: translated labels and status-line text.
  - `text`: character-level string helpers shared by the modules above.
- `app/` — the command-line front end: file system, archives, platform directories,
  JSON and the other work that happens outside the library.
- `tests/` — tests of the library on concrete values.

The laws of the library are public proof functions named `law_*`.
