//! Small standalone utilities shared by the source cache and the UEFI resolver.
pub mod path_suffix_index;
