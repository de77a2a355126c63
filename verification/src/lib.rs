//! Verified logic of flat VMDK disk images.

pub mod descriptor;
pub mod disk;
pub mod error;
pub mod model;
pub mod open;
pub mod path;
pub mod raw;
pub mod size;
pub mod sync;
pub mod text;
