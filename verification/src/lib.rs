//! An indexed storage container that hands every inserted element a stable
//! integer index and recycles freed indices through an intrusive free list.

mod holeyvec;

pub use crate::holeyvec::lemma_occupied_from_is_filtered;
pub use crate::holeyvec::occupied_from;
pub use crate::holeyvec::Error;
pub use crate::holeyvec::HoleyVec;
pub use crate::holeyvec::Iter;
pub use crate::holeyvec::IterMut;
