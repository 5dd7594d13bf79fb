//! The receiving side.

pub mod reassembly;
pub mod integrity;
pub mod delivery;
pub mod interleaving;
pub mod commit;
pub mod gaps;
pub mod ordering;
pub mod sequence;
pub mod late;
