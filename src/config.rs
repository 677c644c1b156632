//! The import configuration and the records that the importer reads back.
use vstd::prelude::*;

verus! {

/// The import configuration: where the bundle lives and the workshop item it belongs to.
pub struct ConfigFile {
    pub path: String,
    pub workshop: Workshop,
}

/// A workshop item as configured.
pub struct Workshop {
    pub id: i64,
    pub name: String,
    pub authors: Vec<String>,
}

/// A stored record's identifier, where it has one.
pub struct Record {
    pub id: Option<String>,
}

} // verus!
