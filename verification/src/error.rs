use vstd::prelude::*;

use crate::components::Id;

verus! {

/// The error kinds of the fragment store and its resolution engine.
///
/// Every error is terminal for the whole resolution pass: there is no
/// retry and no partial result.
#[derive(Debug, Clone, PartialEq, Eq)]
pub enum Q3Error {
    /// The placeholder grammar could not produce a token sequence.
    FailedToParseQuery,
    /// A reference chain revisited the named id: resolution found a cycle.
    FailedToExpand(Id),
    /// A reference names an id that the store does not hold.
    IdNotFound(String),
    /// The script capability finished without binding `value`.
    PythonScriptVariableNotAssigned,
    /// The script capability reported a failure, rendered as text.
    PythonScriptFailed(String),
}

} // verus!
