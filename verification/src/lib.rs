//! Verified core of the TSFFS source-coverage and UEFI module discovery logic:
//! path-suffix matching of embedded debug paths against local files, source file
//! lookup by checksum or path, parsing of the UEFI tracker's module list, the
//! DWARF symbol/line assembly, and the decisions taken when the simulation stops.
pub mod path_text;
pub mod util;
pub mod source_cov;
pub mod uefi;
pub mod dwarf;
pub mod haps;
pub mod log;
