use vstd::prelude::*;

verus! {

/// The pervasive two-state tag: a value that is either still unresolved
/// (carrying its pending form) or fully resolved.
pub enum UR<U, R> {
    UnResolved(U),
    Resolved(R),
}

impl<U, R> UR<U, R> {
    /// True exactly when this value has reached its resolved state.
    pub fn is_resolved(&self) -> (r: bool)
        ensures
            r == (self is Resolved),
    {
        match self {
            UR::Resolved(_) => true,
            UR::UnResolved(_) => false,
        }
    }

    /// The unresolved payload, when still unresolved.
    pub fn unresolved(&self) -> (r: Option<&U>)
        ensures
            match r {
                Some(u) => *self matches UR::UnResolved(u0) && u == u0,
                None => *self is Resolved,
            },
    {
        match self {
            UR::UnResolved(u) => Some(u),
            UR::Resolved(_) => None,
        }
    }
}

} // verus!
