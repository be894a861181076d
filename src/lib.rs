//! Portfolio rebalancing over exact decimal figures.
//!
//! A portfolio is a list of named assets, each with a current amount and a
//! target allocation. Rebalancing derives each asset's share of the total and
//! the amount that it should hold, and certifies the result.

pub mod decimal;
pub mod portfolio;
pub mod laws;
pub mod drift;

pub use decimal::{Decimal, SCALE_LIMIT};
pub use portfolio::{Asset, AssetField, AssetList};
pub use laws::lemma_rebalance_idempotent;
