//! A model of the mutable side of a bounded, log-structured key-value store: its logical content
//! and the storage words that content takes, against which a real store can be checked.

use vstd::prelude::*;

pub mod content;
pub mod format;
pub mod laws;
pub mod model;
pub mod rules;
pub mod store;

pub use format::Format;
pub use model::{StoreModel, StoreOperation};
pub use store::{StoreError, StoreRatio, StoreResult, StoreUpdate};

verus! {

} // verus!
