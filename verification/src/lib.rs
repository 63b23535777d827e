//! A personal ledger: bank exports are normalized into transaction
//! candidates, staged in an inbox, filed under categories that a small
//! memory learns to suggest, and committed to a ledger from which monthly
//! summaries and a net-worth curve are drawn.
//!
//! Every function states what it returns or changes, and is proved to do so.

pub mod amount;
pub mod categorization;
pub mod csv_import;
pub mod dates;
pub mod dto;
pub mod engine;
pub mod networth;
pub mod settings;
pub mod sorting;
pub mod storage;
pub mod summary;
pub mod text;

pub use crate::engine::ArthaCore;
