//! Multi-asset record selection for UTXO-style ledgers.
//!
//! A [`record::Record`] carries a base quantity and any number of named
//! fungible sub-assets.  [`total::combine`] folds records into an aggregate
//! total with explicit overflow reporting, and [`selection::select`] picks a
//! subset of spendable inputs whose combined value dominates a target plus a
//! threshold on every dimension, returning the partition and the excess.

pub mod record;
pub mod selection;
pub mod total;
