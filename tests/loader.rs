use unsourcemap::{
    create_source_map, source_output_path, SourceMapError, SourceMapFile, SourceMapVersionError,
    VLQError,
};

fn document(version: i8, mappings: &str) -> SourceMapFile {
    SourceMapFile {
        version,
        sources: vec!["a.js".to_string(), "b.js".to_string()],
        names: vec!["x".to_string()],
        mappings: mappings.to_string(),
        file: None,
        sources_content: Some(vec!["let x = 1;".to_string()]),
        source_root: None,
        ignore_list: None,
    }
}

#[test]
fn version_other_than_three_is_rejected() {
    let r = create_source_map(document(2, "AAAA"));
    assert_eq!(r.err(), Some(SourceMapError::Version(SourceMapVersionError(2))));
}

#[test]
fn version_three_decodes_mappings() {
    let m = create_source_map(document(3, "AAAA;AACA")).unwrap();
    assert_eq!(m.mappings.len(), 2);
    assert_eq!(m.mappings[1].original_line, Some(1));
    assert_eq!(m.map_data.sources.len(), 2);
}

#[test]
fn bad_mappings_are_reported() {
    let r = create_source_map(document(3, "A!"));
    assert_eq!(r.err(), Some(SourceMapError::Mapping(VLQError::InvalidCharacter)));
}

#[test]
fn output_path_joins_directly() {
    assert_eq!(source_output_path("out/", "src/a.js"), "out/src/a.js");
    assert_eq!(source_output_path("", "a.js"), "a.js");
}

#[test]
fn embedded_source_lookup() {
    let d = document(3, "");
    assert_eq!(d.embedded_source(0).map(|s| s.as_str()), Some("let x = 1;"));
    assert_eq!(d.embedded_source(1), None);
    let mut d = d;
    d.sources_content = None;
    assert_eq!(d.embedded_source(0), None);
}
