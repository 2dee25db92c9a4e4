//! Locate a manifest file (by default `Cargo.toml`) by walking upward
//! through the directory hierarchy.
//!
//! The crate separates the work into a pure, fully specified core and a
//! thin event interface.  [`paths`] holds the lexical path model: parsing a
//! path string into components, joining, normalizing `.` and `..`
//! components, and rendering back to a string.  [`walk`] holds the upward
//! walk itself as a state machine: the caller supplies the outcome of each
//! filesystem probe and receives the next candidate path or a hit.

pub mod paths;
pub mod walk;

pub use paths::LexPath;
pub use paths::normalize_path;
pub use walk::FindIter;
pub use walk::Phase;
pub use walk::Step;
pub use walk::find;
pub use walk::find_from_current_dir;
