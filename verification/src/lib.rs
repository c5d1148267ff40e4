//! A "wide slice": one flat data buffer presented as a sequence of
//! equal-length sub-slices, addressed through a buffer of element offsets.
//! Permuting the offset buffer reorders the logical sub-slices in
//! O(number of slices) time without moving any data.

mod laws;
mod mem;
mod wide;

pub use laws::covered;
pub use laws::lemma_full_cycle;
pub use laws::lemma_partition;
pub use laws::lemma_round_trip;
pub use laws::region_covers;
pub use laws::regions_disjoint;
pub use mem::evenly_spaced;
pub use mem::store_wf;
pub use mem::ConstMem;
pub use mem::HeapMem;
pub use mem::IntoWideSlice;
pub use mem::StaticMem;
pub use wide::rotated_right;
pub use wide::slices_of;
pub use wide::write_model;
pub use wide::WideSlice;
