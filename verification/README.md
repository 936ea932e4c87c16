# Latebra

The core of a privacy-first ledger, written in Verus: the functions in `src/` carry
contracts, and Verus proves them. A few small wrappers around other crates and the
standard library are trusted; each says in its comment what is taken on trust.

## What is verified

| Area | Modules |
|---|---|
| Contract virtual machine | `vm`, `assembler`, `bytecode` |
| State store | `store`, `mem`, `overlay`, `byte_map` |
| Sparse Merkle commitment | `smt`, `smt_model` |
| Transactions and their encoding | `transaction`, `address`, `ticker` |
| Ledger rules and their laws | `rules`, `ledger`, `apply`, `queries`, `rules_laws`, `run_laws`, `ledger_laws` |
| Records, commitment, snapshots | `records`, `tables`, `ordered`, `reader`, `commitment`, `snapshot`, `snapshot_laws`, `points`, `boot` |
| Parallel execution | `parallel`, `parallel_laws` |
| Peer protocol | `wire`, `wire_laws`, `node`, `serve`, `sync` |
| Wallet | `wallet`, `cli`, `web`, `chain_index`, `market`, `desk`, `bridge`, `params`, `amounts`, `numbers` |
| Bytes, text, hashes and randomness | `bytes`, `text`, `hashing`, `random` |

Laws that span functions are public proof functions whose names begin with `law_`.

Cryptography stays outside. A ciphertext is 64 bytes here, a proof is bytes, and what
verifying or combining them gives enters as plain values: the ledger says which
signatures are to be checked, which proof against which balance, which sums it needs,
and which bytes of a snapshot must be ciphertexts.

## Layout

- `src/`: the library.
- `tests/`: its tests.
- `app/`: the disk store, threads, the network and the two wallets, around the library.
