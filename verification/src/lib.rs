//! Integrity checking and voxel-based anomaly detection for shared lidar scans.
//!
//! The floating-point geometry (plane fitting, pose transforms, box tests) is
//! done by the caller; this crate holds the byte-level message handling, the
//! digest check, the point-text tokenizer, and the integer decision logic of
//! the ground filter and the voxel comparison.
pub mod digest;
pub mod text;
pub mod points;
pub mod voxel;
pub mod ground;
