# mc-chunk-hash

Hashes of the chunks and regions of a Minecraft save, snapshots of them on disk, and reports of
what differs between two snapshots.

- `src/` is the library, verified with Verus: region files (`archive`, `anvil`, `linear`,
  `b_linear`), NBT and its canonical encoding (`nbt`, `blockhash`), hashes (`hash`), snapshots
  (`scan`, `snapshot`), their comparison (`compare`), reports (`report`, `json_report`, `html`),
  and a look into single chunks (`inspect`). The `*_laws` modules state what holds across
  functions. `order`, `bytes`, `text`, `codec`, `json`, `util` and `cli` serve the others.
- `tests/` runs the library on given values.
- `app/` is the program around it: arguments, files, threads and output.

Outside crates are called behind small functions whose contracts are believed: `xxhash-rust`,
`fastnbt`, `flate2`, `lz4_flex`, `zstd`, `rkyv` and `serde_json`. Each of them says what it claims
of the crate.
