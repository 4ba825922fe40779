# BusyNCR

A versioned backup client, with the logic as a verified library. Files are cut
into content-defined chunks, each chunk is compressed, sealed under a key that
never leaves the client, and shipped to a daemon only where the daemon lacks it.
Snapshots thin out on a retention grid.

* `src/` is the library. Every function states what it does in `requires` and
  `ensures`, and Verus proves it. The laws that relate several functions are the
  proof functions whose names begin with `law_`.
* `app/` is the command-line client around it: arguments, files, the network,
  the clock and randomness. It hands the library plain values.
* `tests/` runs the library together with the crates that it calls.

## The library

| Modules | What they hold |
|---|---|
| `chunking`, `index`, `snapshot_id`, `manifest` | chunks and their identities, and the wire formats |
| `compression`, `crypto` | framing, the compression policy, sealed blobs, the keyfile |
| `backup`, `restore` | the pipelines between the file system and the daemon |
| `history` | what whole backups and restores come to |
| `retention`, `scheduler`, `run`, `service` | which snapshots stay, and when backups run |
| `bench`, `policy_bench`, `bench_cmd` | measurements of chunk sizes and policies |
| `config`, `enroll`, `keys`, `status`, `snapshots`, `progress`, `summary` | the decisions and texts of the commands |
| `bytes`, `text`, `ratio`, `span`, `units`, `sort`, `idset` | what the others are built of |

What is measured as a fraction is an exact `Ratio`, and a length of time is a
`Span` of nanoseconds: there is no floating point in the library. Keys, nonces,
salts and jitter are drawn by the caller and passed in.

## What is trusted

The hashes, the ciphers, the key derivation, the chunker and the compressors are
those of `blake3`, `chacha20poly1305`, `argon2`, `fastcdc`, `zstd` and
`lz4_flex`; snapshot identities are written by `ulid`. Each call stands in one
small function marked `external_body`, whose comment says what is taken on
trust. That a forged or damaged blob does not open, and that two contents do not
share an identity, is what those ciphers and hashes are for; it is not proved
here.
