# veridata

A verified engine for reconciliation proofs: it encodes records canonically,
hashes them into salted fingerprints, commits to sets of fingerprints with
sorted Merkle trees, and reconciles a source against a sink, reporting
dropped, duplicated and mutated records with a verdict.

Layout:

- `src/` — the library, written in Verus and verified:
  - `canon`, `record`, `identity`, `policy_util`: canonical encoding of records;
  - `hash`, `merkle`, `order`: digests, Merkle commitments and proofs, sorting;
  - `json`: the JSON values written for positions and boundaries;
  - `recon`, `model`: fingerprints, reconciliation and verdicts, with the laws
    that the reconciliation keeps;
  - `config`, `cloud_config`, `connectors`, `dyn_connectors`, `proof_store`,
    `kms`, `metrics`, `doctor`, `e2e`, `salt`: configuration, connector
    settings and selection, signer helpers, metrics and fault decisions.
- `tests/`: tests of the library.
- `app/`: the command-line program around the library (files, YAML, output).
