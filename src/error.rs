//! The ways an operation on messages can fail.

use vstd::prelude::*;

verus! {

/// Why an operation on messages failed; every failure is reported, none is
/// papered over.
#[derive(Clone, Debug, PartialEq, Eq)]
pub enum MessageError {
    /// A group already holds a variant under an equal selector set.
    DuplicateVariant,
    /// No variant of a group matches the query, fallbacks included.
    NoVariantFound,
    /// A placeholder with this id has neither a supplied value nor a default.
    MissingValue(String),
    /// A text unit pairs a single message with a group.
    ShapeMismatch,
}

} // verus!
