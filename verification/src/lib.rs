//! Preparation of fixed-size training patches from large images.
//!
//! The crate samples candidate crop centers inside a disc, merges nearby
//! candidates into centroids, maps the survivors to absolute pixel
//! coordinates, cuts the patches out of a decoded image, and computes the
//! output file names that encode each patch's origin. Coordinates are held
//! in whole pixels, so every geometric step carries a proved contract;
//! distances are compared through their squares, which orders them exactly
//! as the Euclidean distance does.

pub mod candidates;
pub mod config;
pub mod executor;
pub mod imaging;
pub mod labels;
pub mod mapper;
pub mod merge;
pub mod naming;
pub mod point;
pub mod report;
pub mod sampler;
