//! What runs on the device, as seen from the host.

pub mod bytes;
pub mod contents;
pub mod preprocess;
pub mod render;
pub mod resources;
pub mod sim;
pub mod sizes;
pub mod vram;
