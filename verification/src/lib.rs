//! A deterministic limit order book with exact-price, single-match semantics.

pub mod order;
pub mod book;
pub mod engine;
pub mod bytes;
pub mod keccak;
pub mod merkle;
pub mod hex;
pub mod engine_proofs;
pub mod merkle_proofs;

pub use crate::engine::{match_order, replay};
pub use crate::hex::{hex_to_bytes, EncodingError};
pub use crate::merkle::{Balance, OrderbookMerkleTree};
pub use crate::order::{Order, OrderType, State, Trade, ValidationError};
