use vstd::prelude::*;

verus! {

/// Why an operation on the tree was refused. The tree is unchanged whenever
/// one of these is returned.
#[derive(Debug, Clone, Copy, PartialEq, Eq, Structural)]
pub enum TreeError {
    /// An index was out of range, the location was empty, or a step of the
    /// location tried to descend through a file.
    InvalidLocation,
    /// No node of the tree has the path that was asked for.
    NotFound,
}

impl TreeError {
    /// What went wrong, in words.
    pub fn message(&self) -> (text: String)
        ensures
            text@ == match self {
                TreeError::InvalidLocation => "invalid location"@,
                TreeError::NotFound => "path is not in the tree"@,
            },
    {
        match self {
            TreeError::InvalidLocation => "invalid location".to_owned(),
            TreeError::NotFound => "path is not in the tree".to_owned(),
        }
    }
}

} // verus!
