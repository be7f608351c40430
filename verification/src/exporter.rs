//! The exporters' common interface.
use vstd::prelude::*;
use crate::report::Report;

verus! {

/// Exporters print a `Report` as text onto a sink.
pub trait Exporter {
    fn write(&self, report: &Report, sink: &mut String);
}

/// The JSON exporter: the report as a JSON document. Serialising the
/// report's types is done where serde can see them, outside this library.
pub struct JsonExporter {
    pub pretty: bool,
}

} // verus!
