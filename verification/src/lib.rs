//! QR symbol encoder: packs text segments into mode-specific bit streams,
//! computes the format- and version-information cyclic codes, lays codewords
//! into the module grid with all structural patterns, and selects the
//! lowest-penalty data mask.
pub mod bits;
pub mod data;
pub mod encode;
pub mod matrix;
pub mod qrcode;
