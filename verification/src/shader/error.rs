use vstd::prelude::*;

verus! {

/// What can go wrong while preparing a shader: the compiler rejected the
/// final source, or a file could not be read.
#[derive(Clone, Debug, PartialEq, Eq)]
pub enum ShaderError {
    CompilationError { error: String },
    FileError { error: String },
}

impl ShaderError {
    /// The diagnostic text carried by this error.
    pub fn message(&self) -> (r: &String)
        ensures
            r@ == match self {
                ShaderError::CompilationError { error } => error@,
                ShaderError::FileError { error } => error@,
            },
    {
        match self {
            ShaderError::CompilationError { error } => error,
            ShaderError::FileError { error } => error,
        }
    }
}

} // verus!
