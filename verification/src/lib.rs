//! The core of the Latebra ledger: the contract virtual machine, the state store and
//! its sparse Merkle commitment, transactions and their encoding, the ledger's rules,
//! the peer protocol and the wallet's decisions.
//!
//! Cryptography is outside: ciphertexts and proofs are bytes here, and what verifying
//! or combining them gives comes in as plain values.

// Bytes, text and hashes.
pub mod bytes;
pub mod hashing;
pub mod numbers;
pub mod random;
pub mod text;
pub mod text_laws;

// The contract virtual machine.
pub mod assembler;
pub mod bytecode;
pub mod vm;
pub mod vm_laws;

// The state store and its commitment.
pub mod byte_map;
pub mod mem;
pub mod overlay;
pub mod smt;
pub mod smt_model;
pub mod store;

// Addresses and transactions.
pub mod address;
pub mod ticker;
pub mod transaction;

// The ledger.
pub mod apply;
pub mod boot;
pub mod commitment;
pub mod effect_laws;
pub mod encoding_laws;
pub mod ledger;
pub mod ledger_laws;
pub mod ordered;
pub mod parallel;
pub mod parallel_laws;
pub mod points;
pub mod queries;
pub mod reader;
pub mod records;
pub mod rules;
pub mod rules_laws;
pub mod run_laws;
pub mod schedule_laws;
pub mod tree_laws;
pub mod snapshot;
pub mod snapshot_laws;
pub mod tables;

// The peer protocol.
pub mod node;
pub mod peer_laws;
pub mod serve;
pub mod sync;
pub mod wire;
pub mod wire_laws;

// The wallet.
pub mod amounts;
pub mod bridge;
pub mod chain_index;
pub mod cli;
pub mod desk;
pub mod index_laws;
pub mod market;
pub mod name_laws;
pub mod params;
pub mod trade_laws;
pub mod wallet;
pub mod wallet_laws;
pub mod web;
