use crate::document::Document;
use crate::error::YageError;
use crate::provider::{yaml_bytes_of, yaml_parse, yaml_render, yaml_renders, yaml_value_of};
use vstd::prelude::*;

verus! {

/// Reads a document from YAML text. Text that is not YAML fails with `Yaml`.
pub fn read_document(bytes: &Vec<u8>) -> (r: Result<Document, YageError>)
    ensures
        r is Ok <==> yaml_value_of(bytes@) is Some,
        r is Ok ==> yaml_value_of(bytes@) == Some(r->Ok_0@),
        r is Err ==> r->Err_0 is Yaml,
{
    match yaml_parse(bytes) {
        Ok(d) => Ok(d),
        Err(e) => Err(YageError::Yaml(e)),
    }
}

/// Writes a document as YAML text. It fails with `Yaml` exactly where `serde_yaml` cannot
/// write the document: a number whose text is not a YAML number, or a tagged value whose
/// text is not YAML.
pub fn write_document(d: &Document) -> (r: Result<Vec<u8>, YageError>)
    ensures
        r is Ok <==> yaml_renders(d@),
        r is Ok ==> r->Ok_0@ == yaml_bytes_of(d@),
        r is Err ==> r->Err_0 is Yaml,
{
    match yaml_render(d) {
        Ok(b) => Ok(b),
        Err(e) => Err(YageError::Yaml(e)),
    }
}

} // verus!
