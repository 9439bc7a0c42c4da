use vstd::prelude::*;

verus! {

/// Identity of a span: the index of its record in the registry. An identity
/// is valid from the call that created the span until the span is reported,
/// and may be handed out again afterwards.
pub type ID = usize;

/// A finished span, as it is reported to the span's sink. Times are
/// nanoseconds since the Unix epoch.
#[derive(Debug, Clone, Copy, PartialEq, Eq, Structural)]
pub struct Span {
    pub id: ID,
    pub parent: Option<ID>,
    pub start_time: u64,
    pub end_time: u64,
}

} // verus!
