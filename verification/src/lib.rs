//! Tree-graph consensus: the block graph, the pivot chain chosen by the
//! heaviest adaptive subtree rule, the epochs that the chain cuts out of the
//! graph, and the plain decisions around them.
//!
//! What holds of the library as a whole is stated and proved in `decisions` (which
//! blocks are valid), `effects` (what a block changes in the graph), `deferral` (what
//! is executed and paid when), `risks`, `answers` and `prices`, and over the whole
//! life of a graph in `history`, `rebuild` and `agreement`.

pub mod adaptive;
pub mod admission;
pub mod agreement;
pub mod answers;
pub mod anticone;
pub mod anticone_cache;
pub mod arena;
pub mod arrival;
pub mod barrier;
pub mod bits;
pub mod branch;
pub mod brutal;
pub mod collect;
pub mod config;
pub mod confirmation;
pub mod consensus;
pub mod construct;
pub mod dag;
pub mod decisions;
pub mod deferral;
pub mod effects;
pub mod epochs;
pub mod executor;
pub mod finish;
pub mod frames;
pub mod gas_price;
pub mod genesis;
pub mod graph;
pub mod hash_index;
pub mod heaviest;
pub mod history;
pub mod insert;
pub mod logs;
pub mod metadata;
pub mod model;
pub mod order;
pub mod past;
pub mod path_tree;
pub mod pivot;
pub mod plans;
pub mod prices;
pub mod queries;
pub mod rebuild;
pub mod removal;
pub mod rewards;
pub mod risks;
pub mod rule;
pub mod state;
pub mod sums;
pub mod terminals;
pub mod text;
pub mod trees;
pub mod types;
pub mod validity;
pub mod views;
pub mod wide;
