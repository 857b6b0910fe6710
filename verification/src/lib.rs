//! Persistence core for a single JSON document: atomic replace semantics,
//! corruption-tolerant load with backup fallback, and time-gated backup
//! rotation. The filesystem state relevant to this layer (primary file,
//! temporary sibling, backup set) is modelled by [`model::Disk`]; a thin
//! I/O shell mirrors each verified step onto the real filesystem.

pub mod backups;
pub mod engine;
pub mod json;
pub mod laws;
pub mod model;
