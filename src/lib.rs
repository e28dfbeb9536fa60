//! Weighted random selection in constant time per draw, by Vose's alias method.
//!
//! A table is built once from weighted items; each draw then reads one slot
//! chosen by a fair die roll and flips one biased coin.
use vstd::prelude::*;

pub mod model;
pub mod alias;

pub use alias::{Alias, AliasCreationError, WeightedTuple};
