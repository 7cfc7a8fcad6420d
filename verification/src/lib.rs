//! Verified core of the asset pipeline: path arithmetic, sprite naming,
//! shelf packing of texture atlases, the task store and the plans of the
//! tasks that each platform needs.

pub mod atlas;
pub mod config;
pub mod context;
pub mod naming;
pub mod paths;
pub mod platforms;
pub mod resolve;
pub mod svg;
pub mod task;
