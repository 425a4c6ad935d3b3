//! Editing of a deployment manifest of versioned service dependencies, the
//! nested override tree built from a key-value store, and the
//! compare-and-swap rule under which the manifest is written back.
pub mod codec;
pub mod overrides;
pub mod requirements;
pub mod setting;
pub mod store;
pub mod text;
