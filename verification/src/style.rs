use vstd::prelude::*;

verus! {

/// One source entry of a style document.
#[derive(Debug, Clone)]
pub struct StyleSource {
    pub url: String,
    pub source_type: String,
}

/// One vector layer described by archive metadata, its fields as key-value
/// rows with unique keys.
#[derive(Debug, Clone)]
pub struct VectorLayer {
    pub id: String,
    pub fields: Option<Vec<(String, String)>>,
    pub minzoom: Option<u64>,
    pub maxzoom: Option<u64>,
    pub description: Option<String>,
}

} // verus!
