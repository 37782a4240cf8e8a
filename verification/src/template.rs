//! The structured form of a page-template: the manifest declaring which
//! sections the page composes.

use vstd::prelude::*;

verus! {

/// One declared section entry: an optional explicit type string. When the
/// type is absent, the entry's declaration key names the section.
#[derive(Debug, Clone)]
pub struct TemplateSection {
    pub _type: Option<String>,
}

/// One page-template manifest: the declared section entries, keyed by
/// declaration key, and an optional display order. The order is accepted
/// for completeness of the data model; reconciliation does not consume it.
#[derive(Debug, Clone)]
pub struct TemplateJson {
    pub sections: Vec<(String, TemplateSection)>,
    pub order: Option<Vec<String>>,
}

} // verus!
