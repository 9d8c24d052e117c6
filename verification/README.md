# openqbw

A read-only parser for QuickBooks Desktop company files (`.qbw`), written
in Verus: every function of the library carries a contract, and all but a
few small wrappers around outside calls are proved against it.

The page store, the learned cipher model and the slotted-page parser come
from the `opensqlany` crate; `src/store.rs` states what this library
relies on of them, and `src/text.rs` does the same for three `std` string
functions. Those wrappers' contracts are taken on trust.

## Layout

- `src/bv_recovery.rs`, `src/decode.rs`: recovery of the per-page cipher
  parameter `bv`, and decoding of stored pages.
- `src/systable.rs`, `src/syscolumn.rs`, `src/sysindex.rs`,
  `src/sysobject.rs`: scanners of the SA17 system catalogs.
- `src/lineitem.rs`, `src/transaction_header.rs`: QuickBooks records.
- `src/page_attribution.rs`, `src/attribution_content.rs`,
  `src/attribution_schema.rs`: page-to-table attribution and its
  validators.
- `src/fkgraph.rs`, `src/nullability.rs`: catalog reports.
- `src/export.rs`: the rows of the SQLite export and its summary line.
- `src/probe.rs`: page fingerprints used by the diagnostic probes.
- `src/catalog.rs`, `src/sorting.rs`, `src/codec.rs`, `src/text.rs`,
  `src/date.rs`: shared helpers.
- `app/`: the `openqbw` command-line tool (file access, SQLite, printing,
  and the floating-point entropy measure).
- `tests/`: tests of the library.
