//! The two ways a Nesstar container lays out its columns.

pub mod metadata_scan;
pub mod resource_index;
