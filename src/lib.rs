//! Hierarchical aggregation of transactions into content-addressed Faces and
//! Cubes, with the digest helpers, geometry helpers and signature-verification
//! flow that surround it.

pub mod digest;
pub mod model;
pub mod stacks;
pub mod laws;
pub mod geometry;
pub mod consensus;
pub mod identity;
pub mod crypto;
pub mod network;
