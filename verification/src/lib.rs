//! Reassembles a large square image from unordered, unlabeled square tiles
//! whose edges match pixel-for-pixel under rotation and mirroring, then
//! scans the assembled image for a fixed pixel motif in any of its eight
//! orientations and counts the set pixels no motif instance covers.

pub mod grid;
pub mod matching;
pub mod assemble;
pub mod scan;
