//! Items of different denominations, grouped by tier.
//!
//! A `TieredMulti` holds, for each tier, the items of that denomination in the
//! order in which they were added, and walks its tiers from the lowest to the
//! highest. Around it stand the selection of items that cover a value, the
//! choice of denominations that represent an amount, the strict zip of the
//! items of several structurally equal collections, and the wire form.
//!
//! Every function states what it returns over the model in `model`: a finite
//! map from tier to sequence of items.

pub mod amount;
pub mod codec;
pub mod laws;
pub mod model;
pub mod multi;
pub mod order;
pub mod represent;
pub mod select;
pub mod tally;
pub mod tiered;
pub mod zip;

pub use amount::Amount;
pub use multi::TieredMulti;
pub use tiered::{InvalidAmountTierError, Tiered};
pub use zip::TieredMultiZip;
