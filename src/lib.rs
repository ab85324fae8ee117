//! A tiered vector: an indexable sequence with O(1) access by rank and
//! amortised O(sqrt n) insertion and removal at any rank.
//!
//! The sequence is stored in a square arrangement of ring-buffer tiers:
//! `tier_capacity` tiers of `tier_capacity` slots each. Tiers are packed
//! front to back, so the tier holding rank `r` is `r / tier_capacity`.
//!
//! - [`ImplicitTierRingOffsets`]: the head and tail cursors of one tier.
//! - [`Tier`]: a ring buffer over optional slots, the tier of the vectors.
//! - [`ImplicitTier`]: the same operations on slots and cursors lent by the
//!   caller.
//! - [`RawTier`]: a tier whose operations check their arguments and report
//!   refusals as [`TierError`], over slots that always hold a value.
//! - [`LinkedTieredVec`]: the vector itself, with cascading insertion and
//!   removal and the resizing that keeps it square.
//! - [`TieredVec`]: the vector with checked operations that report
//!   refusals as [`TieredVectorError`].

mod filled_tier;
mod implicit;
mod linked;
mod pow2;
mod raw_tier;
mod ring_offsets;
mod tier;
mod tiered_vec;

pub use implicit::ImplicitTier;
pub use linked::{is_tier_capacity_for, packed_tier_len, LinkedTieredVec};
pub use pow2::is_power_of_two;
pub use raw_tier::{RawTier, TierError};
pub use ring_offsets::ImplicitTierRingOffsets;
pub use tier::Tier;
pub use tiered_vec::{
    apply_edit, apply_edits, lemma_apply_edits_step, lemma_capacity_is_square, lemma_len_counts_edits,
    lemma_tiers_packed, net_growth, Edit, TieredVec, TieredVectorError,
};
