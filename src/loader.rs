use vstd::prelude::*;

use crate::mapping::{mappings_spec, process_mappings, SourceMapping};
use crate::vlq::VLQError;

verus! {

/// The fields of a source map document (revision 3) that the decoder reads or hands on.
#[derive(Debug)]
pub struct SourceMapFile {
    pub version: i8,
    pub sources: Vec<String>,
    pub names: Vec<String>,
    pub mappings: String,
    pub file: Option<String>,
    pub sources_content: Option<Vec<String>>,
    pub source_root: Option<String>,
    pub ignore_list: Option<Vec<i32>>,
}

/// A document whose version is not 3; holds the version found.
#[derive(Debug, Clone, Copy, PartialEq, Eq, Structural)]
pub struct SourceMapVersionError(pub i8);

/// Why a document could not be turned into a [`SourceMap`].
#[derive(Debug, Clone, Copy, PartialEq, Eq, Structural)]
pub enum SourceMapError {
    Version(SourceMapVersionError),
    Mapping(VLQError),
}

/// A document together with the records decoded from its `mappings`.
#[derive(Debug)]
pub struct SourceMap {
    pub map_data: SourceMapFile,
    pub mappings: Vec<SourceMapping>,
}

/// The only format version that is accepted.
pub const SOURCE_MAP_VERSION: i8 = 3;

/// Checks the version of a document and decodes its mappings.
pub fn create_source_map(parsed: SourceMapFile) -> (r: Result<SourceMap, SourceMapError>)
    ensures
        parsed.version != SOURCE_MAP_VERSION ==> r == Err::<SourceMap, SourceMapError>(
            SourceMapError::Version(SourceMapVersionError(parsed.version)),
        ),
        parsed.version == SOURCE_MAP_VERSION ==> match mappings_spec(parsed.mappings@) {
            Ok(recs) => r matches Ok(m) && m.map_data == parsed && m.mappings@ == recs,
            Err(e) => r == Err::<SourceMap, SourceMapError>(SourceMapError::Mapping(e)),
        },
{
    if parsed.version != SOURCE_MAP_VERSION {
        return Err(SourceMapError::Version(SourceMapVersionError(parsed.version)));
    }
    match process_mappings(parsed.mappings.as_str()) {
        Ok(mappings) => Ok(SourceMap { map_data: parsed, mappings }),
        Err(e) => Err(SourceMapError::Mapping(e)),
    }
}

/// The path under which the embedded content of a source is saved: the save location
/// followed directly by the source's path.
pub fn source_output_path(save_path: &str, source_path: &str) -> (r: String)
    ensures
        r@ == save_path@ + source_path@,
{
    let mut path = String::from_str(save_path);
    path.append(source_path);
    path
}

impl SourceMapFile {
    /// The embedded content of the source at `index`, where the document has one.
    pub fn embedded_source(&self, index: usize) -> (r: Option<&String>)
        ensures
            match self.sources_content {
                Some(c) => if index < c@.len() {
                    r matches Some(s) && *s == c@[index as int]
                } else {
                    r is None
                },
                None => r is None,
            },
    {
        match &self.sources_content {
            Some(c) => {
                if index < c.len() {
                    Some(&c[index])
                } else {
                    None
                }
            },
            None => None,
        }
    }
}

} // verus!
