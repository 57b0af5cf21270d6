# tomo

Two-way file synchronisation between two machines, as a library that Verus
verifies.

- `src/` is the library. Every function states what it returns in its contract;
  what holds of several functions together stands as public proof functions. The
  crate's doc comment lists the modules.
- `tests/` runs the library on concrete values, with the outside crates linked.
- `app/` is what does input and output round the library: the SQLite database of
  the history, the TOML settings, the SSH configuration files and the SSH session.

Some functions of the library call other crates: BLAKE3 and SHA-256 digests,
FastCDC cuts, zstd frames, the leaves of the postcard format, glob sets, and the
key algorithms that russh asks for. What is taken for granted of each call is the
contract of the small function that makes it, marked `external_body`.

What a peer, a database or a network does is not modelled: the library decides
what to do next and takes what came of it as an argument.
