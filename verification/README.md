# rars

Writing RAR 5 and RAR 7 archives: layout, headers, compression decisions,
volumes, recovery records and the resources that a write may take. The library
is verified with Verus: contracts say what a function returns, on which inputs it
fails, and what it counts against the resources.

The codec and the ciphers stand behind closures. What they are given, and what
becomes of what they give back, is decided in the library. An encoder works in
turns: after each a receiver hears how far it has come, and may stop it.

- `src/rar50/` plans, compresses, frames and cuts archives.
- `src/recovery/rar5/` plans, builds, scans and repairs recovery records.
- `src/streaming/` counts memory, temporary storage and prepared headers.
- `src/rewrite*.rs` decide what a rewrite of an archive keeps, stages and hands
  over.
- `src/timestamp.rs`, `src/civil.rs` and `src/tzif.rs` convert times.
- `tests/` runs the library.
- `app/` opens files, reads the clock and the environment, and runs threads.

Functions whose names begin with `law_` state what holds of several functions
together.
