use vstd::prelude::*;

verus! {

/// Errors which can be caused by normal gooseberry operation.
pub enum Apologize {
    /// Thrown when trying to access an unrecorded tag
    TagNotFound { tag: String },
    /// Thrown when an annotation ID doesn't match any recorded annotation
    AnnotationNotFound { id: String },
    /// Thrown when explicit Y not received from user for destructive things
    DoingNothing,
    /// Thrown when $HOME is not set
    Homeless,
    /// Thrown when a search window cannot be opened or closes without a result
    SearchError,
    /// Errors related to changing the configuration file
    ConfigError { message: String },
    /// Catch-all for stuff that should never happen
    OutOfCheeseError { message: String },
}

} // verus!
