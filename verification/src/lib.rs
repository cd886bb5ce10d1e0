//! Verified core of the Flint test-specification library.
pub mod error;
pub mod index;
pub mod nbt;
pub mod plan;
pub mod results;
pub mod runner;
pub mod spatial;
pub mod string_map;
pub mod test_spec;
pub mod text;
pub mod timeline_validation;
pub mod traits;
pub mod version;
pub mod viz_link;
