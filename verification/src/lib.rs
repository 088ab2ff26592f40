//! Verified core of the Chalkydri vision pipeline: the AprilTag corner and edge
//! detector, its union-find, the gift-wrapping hull, and the small decision
//! functions around the camera and TPU plumbing.

pub mod utils;
pub mod union_find;
pub mod detector;
pub mod myalgo;
pub mod tfledge;
pub mod mjpeg;
pub mod sink;
pub mod config;
pub mod dark_corners;
pub mod providers;
pub mod error;
pub mod resources;
pub mod publisher;
pub mod caps;
