//! Runtime core of a span tracer: a store of in-flight span records, a
//! per-thread stack of active spans that names the implicit parent of a new
//! span, and a reference-counted cascade that reports each span once, after
//! every span that held it open has finished.
pub mod context;
pub mod laws;
pub mod registry;
pub mod span;
pub mod store;

pub use context::ContextStack;

pub use span::{Span, ID};
pub use registry::{new_span, new_span_root, Entered, OSpanGuard, Registry, SpanError, SpanGuard};
pub use store::SpanInner;
