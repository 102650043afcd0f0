# toric

A Holochain network whose economy, sovereignty and trust run on the golden
ratio: a mutual-credit ledger whose supply expands on Fibonacci crossings, a
quorum-sealed roster of signers derived from reputation, and a registry of
AI artifacts scored by attestations, warrants and a relational trust field.

- `src/` — the verified library (Verus). Every rule a peer enforces and every
  decision a coordinator takes over what it read is here, with its contract:
  - `fibonacci`, `golden`, `phifixed`, `curve`, `roster`: exact φ arithmetic
    (ℤ[φ] sign and floor tests, fixed-point ℤ[φ]), the credit curve, seal
    thresholds and the mass-derived roster; the supply expansion follows the
    binary64 product ⌊supply × 1.618033988749895⌋ bit for bit, modelled in
    integers;
  - `ledger`: the mutual-credit membrane (accounts, transactions, credit
    limits, network-state succession, payment receipts, links, seals);
  - `economy`: the coordinator's decisions (admission, balances, spends,
    endorsements, attestation succession, sealed limits, roster rotation and
    accession, the frozen tally);
  - `registry`, `field`, `blob_json`: the registry membrane, cache freshness,
    comparative attestations, the relational trust field and its query
    completion, the holonomy probe's masses, the manifest drift gate;
  - `identity`: agent manifests.
- `tests/` — tests of the library.
- `app/` — the zomes: entry definitions, validation callbacks and externs that
  read and write the DHT and call the library, plus the float-valued
  geometry (closure probes, drift, float scores).
