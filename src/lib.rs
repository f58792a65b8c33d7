//! Builds "smpr" resource packs: an LZ77 codec for resource data and the
//! byte-exact layout of the pack container.
pub mod lz77;
pub mod resource;
pub mod pack;
