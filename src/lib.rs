//! Finds the newest semantic-version tags of a container image.
//!
//! The pipeline: an image reference is normalised, the registry is asked
//! for a token and then for the image's tags (the network part lives outside
//! this library), the tags are parsed as semantic versions, and the versions
//! are ranked by precedence.
pub mod image;
pub mod version;
pub mod precedence;
pub mod rank;
pub mod registry;
