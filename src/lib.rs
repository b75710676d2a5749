//! Enumeration of bounded trading and transfer paths through a network of
//! cryptocurrency exchanges, and the classification of those paths into
//! compact fixed-shape variants.

/// Exchange and currency ids, pairs, and the three kinds of walk step.
pub mod id_types;
/// When the expansion of a walk stops: depth, cycles, transfer budget.
pub mod search_stop_settings;
/// Walk nodes and the two ways of extending a walk.
pub mod nodes;
/// Walks, their classification, reversal dedup and re-expansion.
pub mod arbitrage_paths;
/// The exchange network, its adjacency indices and the path expander.
pub mod network;
/// What holds of every walk the expander emits, and of re-expanded loops.
pub mod walks;
/// Two-way mapping between names and consecutive ids.
pub mod string_to_int_mapper;
/// The lexicon of exchanges, currencies and listed pairs.
pub mod lexicon;
/// Inverse-aware market keys.
pub mod order_book;
/// LZ4 compression of stored artifacts and the storage error type.
pub mod crypto_serializer;
/// The decisions behind file existence checks.
pub mod file_utils;
/// Synthetic pair sets for benchmarks.
pub mod pair_generation;
/// Reassembly of fragmented WebSocket messages.
pub mod ws_continuation_buffer;
/// Small facts about sequences shared by the proofs.
pub mod seq_facts;
/// Short textual ids of walks.
pub mod print_path;
