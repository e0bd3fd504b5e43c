//! Video fields: telling the standard, and rendering.

pub mod grid;
pub mod line;
pub mod notch;
pub mod picture;
pub mod ppm;
pub mod reconstructor;
pub mod scan;
pub mod standard;
pub mod sync;

pub use picture::MAX_TEMPORAL_WINDOW;
pub use reconstructor::{FrameReconstructor, DEFAULT_TEMPORAL_WINDOW};
pub use standard::detect_video_standard;
pub use sync::{matched_sync_center, robust_sync_tip_center};
