use vstd::prelude::*;

verus! {

/// One node of a raw per-locale resource document, as the config loader hands
/// it over: a generic tree of mapping, sequence and scalar nodes. The mapping
/// keeps its entries in authored order.
pub enum RawValue {
    Scalar(String),
    Sequence(Vec<RawValue>),
    Mapping(Vec<(String, RawValue)>),
}

} // verus!
