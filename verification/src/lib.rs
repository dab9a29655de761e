//! Core of a market-data ingestion and limit-order-book library:
//! an L3 market-by-order depth book kept in integer tick/lot space,
//! the framing layer of a shared-memory pub/sub transport, and the
//! normalization of exchange depth/trade updates into feed events.

pub mod depth;
pub mod ipc;
pub mod stream;
