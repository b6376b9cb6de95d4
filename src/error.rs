use vstd::prelude::*;
use vstd::string::StringExecFns;

verus! {

/// Failures reported by the store, the bundle manager and the frame planner.
#[derive(Debug, Clone, Copy, PartialEq, Eq, Structural)]
pub enum PlotError {
    /// A type name outside the supported set, or one that cannot serve as
    /// the x coordinate.
    UnknownType,
    /// A trace handle that does not name a live trace.
    UnknownHandle,
    /// A bundle handle that does not name a live bundle.
    UnknownBundle,
    /// A byte buffer whose length or content does not fit the row layout.
    MalformedRow,
    /// The graphics context could not give a buffer.
    ResourceExhausted,
    /// An empty or reversed range, or a drawable area of size zero.
    InvalidRange,
}

/// An error reported by the host's 2D canvas backend.
pub struct CanvasError(pub String);

impl CanvasError {
    /// The text shown for the error.
    pub fn message(&self) -> (r: String)
        ensures
            r@ == "Canvas Error: "@ + self.0@,
    {
        let prefix = String::from_str("Canvas Error: ");
        prefix.concat(self.0.as_str())
    }
}

} // verus!
