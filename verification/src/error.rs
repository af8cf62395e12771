use vstd::prelude::*;

verus! {

/// What an operation of the database can fail with.
#[derive(Debug)]
pub enum VectorDbError {
    /// No collection of that name is known.
    CollectionNotFound(String),
    /// A collection of that name is resident or persisted already.
    CollectionAlreadyExists(String),
    /// A vector has not the collection's dimension.
    DimensionMismatch { expected: usize, actual: usize },
    /// An update names an identifier that the collection does not hold.
    VectorNotFound(String),
    /// The persistent store failed; the text is the failure's message.
    Io(String),
    /// Encoding or decoding failed.
    Serialization(String),
    /// Arguments that do not fit each other.
    InvalidConfig(String),
}

impl VectorDbError {
    /// An `InvalidConfig` error with the given text.
    pub fn invalid_config(text: &str) -> (r: VectorDbError)
        ensures
            r matches VectorDbError::InvalidConfig(m) && m@ == text@,
    {
        VectorDbError::InvalidConfig(text.to_owned())
    }
}

} // verus!
