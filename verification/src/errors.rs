use vstd::prelude::*;

verus! {

/// The failures a repository operation can report. Backends classify
/// storage-level failures into these kinds at the point of occurrence;
/// callers never see a raw storage error.
#[derive(Debug, PartialEq, Eq)]
pub enum RepositoryError {
    /// A lower-level storage failure not otherwise classified.
    Unexpected(String),
    /// The referenced todo or label does not exist.
    NotFound(i32),
    /// A label with the same name already exists; carries the existing id.
    Duplicate(i32),
}

impl Clone for RepositoryError {
    fn clone(&self) -> (r: Self)
        ensures
            r == *self,
    {
        match self {
            RepositoryError::Unexpected(detail) => RepositoryError::Unexpected(detail.clone()),
            RepositoryError::NotFound(id) => RepositoryError::NotFound(*id),
            RepositoryError::Duplicate(id) => RepositoryError::Duplicate(*id),
        }
    }
}

impl RepositoryError {
    /// True exactly on the variant that reports a missing identifier.
    pub fn is_not_found(&self) -> (r: bool)
        ensures
            r == (self is NotFound),
    {
        match self {
            RepositoryError::NotFound(_) => true,
            _ => false,
        }
    }
}

} // verus!
