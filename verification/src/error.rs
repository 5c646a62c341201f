use vstd::prelude::*;

verus! {

/// What can go wrong when wiring stores or reading and recomputing values.
/// None of these is fatal: each is returned to the caller.
#[derive(Clone, Copy, Debug, PartialEq, Eq, Structural)]
pub enum StoreError {
    /// A binding named an upstream store that does not exist.
    UnknownUpstream,
    /// A binding would make a store depend on itself, directly or through
    /// other stores.
    CyclicDependency,
    /// A typed read met a value of another type.
    TypeMismatch,
    /// An initializer read an upstream name that no binding provides.
    UnboundInitializerReference,
}

impl StoreError {
    /// The message of this error.
    pub fn message(&self) -> (text: String)
        ensures
            text@ == (match *self {
                StoreError::UnknownUpstream => "unknown upstream store"@,
                StoreError::CyclicDependency => "cyclic dependency"@,
                StoreError::TypeMismatch => "type mismatch"@,
                StoreError::UnboundInitializerReference => "unbound initializer reference"@,
            }),
    {
        match self {
            StoreError::UnknownUpstream => "unknown upstream store".to_string(),
            StoreError::CyclicDependency => "cyclic dependency".to_string(),
            StoreError::TypeMismatch => "type mismatch".to_string(),
            StoreError::UnboundInitializerReference => "unbound initializer reference".to_string(),
        }
    }
}

} // verus!
