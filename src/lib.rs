//! Decoding of the `mappings` field of JavaScript source maps (revision 3): the Base64
//! VLQ segment decoder and the reconstruction of per-segment mapping records.

pub mod loader;
pub mod mapping;
pub mod split;
pub mod text;
pub mod vlq;

pub use loader::{
    create_source_map, source_output_path, SourceMap, SourceMapError, SourceMapFile,
    SourceMapVersionError,
};
pub use mapping::{process_mappings, Accumulator, SourceMapping};
pub use vlq::{decode_vlq, VLQError};
